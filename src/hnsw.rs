//! The hierarchical proximity graph: nodes live in an arena and refer to each
//! other by position, each with one neighbour list per layer it belongs to.
use vstd::prelude::*;
use std::collections::{HashMap, HashSet};
use crate::error::VectorError;
use crate::metric::{order_key, order_key_spec, DistanceMetric};
use crate::sharding::{hash_key, lemma_insert_contains, stable_hash};
use crate::lsm::{bytes_le, lemma_lex_total, lemma_lex_trans, lex_le};
use crate::codec::{
    be32, decode_index_meta, decode_text, decode_vector, encode_index_meta, encode_text, encode_vector, meta_fits,
    meta_record, push_be32, read_be32, replay_order, vector_record, IndexMeta, RecordHead,
};
use vstd::utf8::encode_utf8;
use vstd::slice::slice_subrange;

verus! {

broadcast use vstd::std_specs::hash::group_hash_axioms;

/// The highest layer a node can be placed on.
pub const MAX_LEVEL: usize = 10;

/// Build and search parameters of the graph.
#[derive(Debug, Clone, Copy, PartialEq, Eq, Structural)]
pub struct HnswConfig {
    /// Neighbour cap on every layer above the ground layer (M).
    pub max_connections: usize,
    /// Neighbour cap on the ground layer (usually 2M).
    pub max_connections_layer0: usize,
    /// Beam width while inserting.
    pub ef_construction: usize,
    /// Beam width while searching.
    pub ef_search: usize,
}

/// A stored vector with its caller-facing identity.
#[derive(Debug, Clone)]
pub struct VectorEntry {
    pub id: String,
    /// Components as single-precision bit patterns.
    pub vector: Vec<u32>,
    /// Caller metadata, as JSON text.
    pub metadata: Option<String>,
    /// Soft-delete flag: the entry stays in the graph but is hidden.
    pub deleted: bool,
}

impl HnswConfig {
    /// The parameters for quick, rougher results (M = 8).
    pub fn fast() -> (c: HnswConfig)
        ensures
            c == (HnswConfig { max_connections: 8, max_connections_layer0: 16, ef_construction: 100, ef_search: 50 }),
    {
        HnswConfig { max_connections: 8, max_connections_layer0: 16, ef_construction: 100, ef_search: 50 }
    }

    /// The default parameters (M = 16).
    pub fn balanced() -> (c: HnswConfig)
        ensures
            c == (HnswConfig { max_connections: 16, max_connections_layer0: 32, ef_construction: 200, ef_search: 100 }),
    {
        HnswConfig { max_connections: 16, max_connections_layer0: 32, ef_construction: 200, ef_search: 100 }
    }

    /// The parameters for better recall at a higher cost (M = 32).
    pub fn high_quality() -> (c: HnswConfig)
        ensures
            c == (HnswConfig { max_connections: 32, max_connections_layer0: 64, ef_construction: 400, ef_search: 200 }),
    {
        HnswConfig { max_connections: 32, max_connections_layer0: 64, ef_construction: 400, ef_search: 200 }
    }

    /// The parameters for neighbour cap `m`: `2m` on the ground layer, the
    /// default beam widths.
    pub fn with_max_connections(m: usize) -> (c: HnswConfig)
        requires
            m <= usize::MAX / 2,
        ensures
            c == (HnswConfig { max_connections: m, max_connections_layer0: (2 * m) as usize, ef_construction: 200, ef_search: 100 }),
    {
        HnswConfig { max_connections: m, max_connections_layer0: 2 * m, ef_construction: 200, ef_search: 100 }
    }
}

impl Default for HnswConfig {
    fn default() -> (c: HnswConfig)
        ensures
            c == (HnswConfig { max_connections: 16, max_connections_layer0: 32, ef_construction: 200, ef_search: 100 }),
    {
        HnswConfig::balanced()
    }
}

/// One node of the graph: its top layer and its neighbours on each layer
/// `0..=level`, as positions in the arena.
#[derive(Debug, Clone)]
pub struct HnswNode {
    pub level: usize,
    pub connections: Vec<Vec<usize>>,
}

impl HnswNode {
    /// A node on layers `0..=level` with no neighbours yet.
    pub fn new(level: usize) -> (n: HnswNode)
        requires
            level < usize::MAX,
        ensures
            n.level == level,
            n.connections@.len() == level + 1,
            forall|l: int| 0 <= l <= level ==> (#[trigger] n.connections@[l])@.len() == 0,
    {
        let mut connections: Vec<Vec<usize>> = Vec::new();
        let mut i: usize = 0;
        while i <= level
            invariant
                i <= level + 1,
                level < usize::MAX,
                connections@.len() == i,
                forall|l: int| 0 <= l < i ==> (#[trigger] connections@[l])@.len() == 0,
            decreases level + 1 - i,
        {
            connections.push(Vec::new());
            i += 1;
        }
        HnswNode { level, connections }
    }
}

/// One hit of a search.
#[derive(Debug, Clone)]
pub struct SearchResult {
    pub id: String,
    /// Distance to the query as a single-precision bit pattern; smaller is closer.
    pub distance: u32,
    pub metadata: Option<String>,
}

/// Counters describing an index.
#[derive(Debug, Clone)]
pub struct IndexStats {
    pub num_vectors: usize,
    pub num_active: usize,
    pub num_deleted: usize,
    pub num_nodes: usize,
    pub dimension: usize,
    pub entry_point_level: usize,
    /// Number of neighbour-list slots in use on each layer `0..=MAX_LEVEL`.
    pub connections_per_layer: Vec<usize>,
}

/// How urgently an index with soft-deleted entries should be rebuilt.
#[derive(Debug, Clone, Copy, PartialEq, Eq, Structural)]
pub enum RebuildAdvice {
    /// At most 10% deleted.
    Healthy,
    /// Over 10% and at most 25% deleted.
    MinorImpact,
    /// Over 25% and at most 50% deleted.
    ConsiderRebuild,
    /// Over 50% deleted.
    RebuildStronglyRecommended,
}

/// The advice for `deleted` soft-deleted entries out of `total`.
pub open spec fn advice_for(deleted: int, total: int) -> RebuildAdvice {
    if total > 0 && 100 * deleted > 50 * total {
        RebuildAdvice::RebuildStronglyRecommended
    } else if total > 0 && 100 * deleted > 25 * total {
        RebuildAdvice::ConsiderRebuild
    } else if total > 0 && 100 * deleted > 10 * total {
        RebuildAdvice::MinorImpact
    } else {
        RebuildAdvice::Healthy
    }
}

/// Picks the advice from the share of deleted entries: thresholds at 10%,
/// 25% and 50%, each exclusive.
pub fn rebuild_advice(num_deleted: usize, num_vectors: usize) -> (r: RebuildAdvice)
    ensures
        r == advice_for(num_deleted as int, num_vectors as int),
{
    let d = num_deleted as u128;
    let t = num_vectors as u128;
    if t > 0 && 100 * d > 50 * t {
        RebuildAdvice::RebuildStronglyRecommended
    } else if t > 0 && 100 * d > 25 * t {
        RebuildAdvice::ConsiderRebuild
    } else if t > 0 && 100 * d > 10 * t {
        RebuildAdvice::MinorImpact
    } else {
        RebuildAdvice::Healthy
    }
}

impl RebuildAdvice {
    /// The advice in words.
    pub fn message(&self) -> (r: &'static str)
        ensures
            *self == RebuildAdvice::Healthy ==> r@ == "Healthy: <10% vectors deleted"@,
            *self == RebuildAdvice::MinorImpact ==> r@ == "Minor impact: 10-25% vectors deleted"@,
            *self == RebuildAdvice::ConsiderRebuild ==> r@ == "Consider rebuild: >25% vectors deleted"@,
            *self == RebuildAdvice::RebuildStronglyRecommended ==> r@
                == "Rebuild strongly recommended: >50% vectors deleted"@,
    {
        match self {
            RebuildAdvice::Healthy => "Healthy: <10% vectors deleted",
            RebuildAdvice::MinorImpact => "Minor impact: 10-25% vectors deleted",
            RebuildAdvice::ConsiderRebuild => "Consider rebuild: >25% vectors deleted",
            RebuildAdvice::RebuildStronglyRecommended => "Rebuild strongly recommended: >50% vectors deleted",
        }
    }
}

impl SearchResult {
    pub fn new(id: String, distance: u32) -> (r: SearchResult)
        ensures
            r.id == id && r.distance == distance && r.metadata is None,
    {
        SearchResult { id, distance, metadata: None }
    }

    pub fn with_metadata(id: String, distance: u32, metadata: String) -> (r: SearchResult)
        ensures
            r.id == id && r.distance == distance && r.metadata == Some(metadata),
    {
        SearchResult { id, distance, metadata: Some(metadata) }
    }
}

/// Whether hits are in ascending order of distance.
pub open spec fn ranked_by_distance(s: Seq<SearchResult>) -> bool {
    forall|i: int, j: int|
        0 <= i < j < s.len() ==> order_key_spec(s[i].distance) <= order_key_spec(s[j].distance)
}

/// Hit `x` comes no later than hit `y`: nearer, or at the same distance with
/// an identifier whose UTF-8 bytes come no later.
pub open spec fn hit_le(x: SearchResult, y: SearchResult) -> bool {
    order_key_spec(x.distance) < order_key_spec(y.distance) || (order_key_spec(x.distance) == order_key_spec(
        y.distance,
    ) && lex_le(encode_utf8(x.id@), encode_utf8(y.id@)))
}

/// Whether hits are in ascending order of distance, and hits at the same
/// distance in ascending order of identifier.
pub open spec fn ranked(s: Seq<SearchResult>) -> bool {
    forall|i: int, j: int| 0 <= i < j < s.len() ==> hit_le(s[i], s[j])
}

proof fn lemma_hit_le_facts(x: SearchResult, y: SearchResult, z: SearchResult)
    ensures
        hit_le(x, y) || hit_le(y, x),
        hit_le(x, y) && hit_le(y, z) ==> hit_le(x, z),
        hit_le(x, y) ==> order_key_spec(x.distance) <= order_key_spec(y.distance),
{
    lemma_lex_total(encode_utf8(x.id@), encode_utf8(y.id@));
    if hit_le(x, y) && hit_le(y, z) && order_key_spec(x.distance) == order_key_spec(z.distance) {
        lemma_lex_trans(encode_utf8(x.id@), encode_utf8(y.id@), encode_utf8(z.id@));
    }
}

/// Whether hit `a` comes no later than hit `b`.
fn hit_before(a: &SearchResult, b: &SearchResult) -> (r: bool)
    ensures
        r == hit_le(*a, *b),
{
    let ka = order_key(a.distance);
    let kb = order_key(b.distance);
    if ka < kb {
        true
    } else if ka > kb {
        false
    } else {
        bytes_le(a.id.as_str().as_bytes(), b.id.as_str().as_bytes())
    }
}

fn copy_result(h: &SearchResult) -> (r: SearchResult)
    ensures
        r == *h,
{
    SearchResult { id: h.id.clone(), distance: h.distance, metadata: copy_text(&h.metadata) }
}

/// Inserts a hit into a list in hit order, after the hits that come no later.
fn insert_hit(out: &mut Vec<SearchResult>, h: SearchResult) -> (p: usize)
    requires
        ranked(old(out)@),
    ensures
        p <= old(out)@.len(),
        final(out)@ == old(out)@.insert(p as int, h),
        ranked(final(out)@),
{
    let mut p: usize = 0;
    while p < out.len() && hit_before(&out[p], &h)
        invariant
            p <= out@.len(),
            ranked(out@),
            forall|i: int| 0 <= i < p ==> hit_le(#[trigger] out@[i], h),
        decreases out@.len() - p,
    {
        p += 1;
    }
    let ghost before = out@;
    out.insert(p, h);
    proof {
        if p < before.len() {
            lemma_hit_le_facts(before[p as int], h, h);
        }
        assert forall|i: int, j: int| 0 <= i < j < out@.len() implies hit_le(out@[i], out@[j]) by {
            if j < p {
            } else if j == p {
            } else if i < p {
                assert(out@[j] == before[j - 1]);
                assert(out@[i] == before[i]);
            } else if i == p {
                assert(out@[j] == before[j - 1]);
                if j - 1 > p {
                    assert(hit_le(before[p as int], before[j - 1]));
                }
                lemma_hit_le_facts(h, before[p as int], before[j - 1]);
            } else {
                assert(out@[j] == before[j - 1]);
                assert(out@[i] == before[i - 1]);
            }
        }
    }
    p
}

/// The hits of `v` in hit order.
fn order_hits(v: Vec<SearchResult>) -> (r: Vec<SearchResult>)
    requires
        distinct_ids(v@),
    ensures
        r@.len() == v@.len(),
        ranked(r@),
        distinct_ids(r@),
        forall|i: int| 0 <= i < r@.len() ==> v@.contains(#[trigger] r@[i]),
{
    let mut out: Vec<SearchResult> = Vec::new();
    let ghost mut picked: Seq<int> = Seq::empty();
    let mut i: usize = 0;
    while i < v.len()
        invariant
            i <= v@.len(),
            distinct_ids(v@),
            out@.len() == i,
            picked.len() == i,
            ranked(out@),
            picked.no_duplicates(),
            forall|p: int| 0 <= p < i ==> 0 <= #[trigger] picked[p] < i && out@[p] == v@[picked[p]],
        decreases v@.len() - i,
    {
        let h = copy_result(&v[i]);
        let ghost before = out@;
        let ghost pk = picked;
        let p = insert_hit(&mut out, h);
        proof {
            picked = picked.insert(p as int, i as int);
            assert forall|q: int| 0 <= q < i + 1 implies 0 <= #[trigger] picked[q] < i + 1 && out@[q] == v@[picked[q]] by {
                if q < p {
                    assert(picked[q] == pk[q]);
                } else if q > p {
                    assert(picked[q] == pk[q - 1]);
                }
            }
            assert forall|a: int, b: int| 0 <= a < b < picked.len() implies picked[a] != picked[b] by {
                let a0 = if a < p { a } else { a - 1 };
                let b0 = if b < p { b } else { b - 1 };
                if a != p && b != p {
                    assert(picked[a] == pk[a0] && picked[b] == pk[b0]);
                } else if a == p {
                    assert(picked[b] == pk[b0]);
                } else {
                    assert(picked[a] == pk[a0]);
                }
            }
        }
        i += 1;
    }
    proof {
        assert forall|a: int, b: int| 0 <= a < b < out@.len() implies out@[a].id@ != out@[b].id@ by {
            assert(picked[a] != picked[b]);
            if picked[a] < picked[b] {
            } else {
            }
        }
        assert forall|q: int| 0 <= q < out@.len() implies v@.contains(#[trigger] out@[q]) by {
            assert(v@[picked[q]] == out@[q]);
        }
    }
    out
}

/// Whether no identifier appears twice among the hits.
pub open spec fn distinct_ids(s: Seq<SearchResult>) -> bool {
    forall|i: int, j: int| 0 <= i < j < s.len() ==> s[i].id@ != s[j].id@
}

/// `q` is the query as the index compares it: normalised under cosine, as
/// given otherwise.
pub open spec fn query_form<N: Fn(&Vec<u32>) -> Vec<u32>>(
    metric: DistanceMetric,
    normalize: &N,
    query: &Vec<u32>,
    q: Vec<u32>,
) -> bool {
    if metric == DistanceMetric::Cosine {
        normalize.ensures((query,), q)
    } else {
        q == *query
    }
}

/// A text as a snapshot frames it: its UTF-8 length, then its bytes.
pub open spec fn text_frame(s: Seq<char>) -> Seq<u8> {
    be32(encode_utf8(s).len() as u32) + encode_utf8(s)
}

/// Optional metadata as a snapshot frames it: a 0 byte, or a 1 byte and the text.
pub open spec fn meta_frame(m: Option<String>) -> Seq<u8> {
    match m {
        None => seq![0u8],
        Some(t) => seq![1u8] + text_frame(t@),
    }
}

/// An entry as a snapshot frames it: its vector record (with flag, layer and
/// position), its identifier, its metadata.
pub open spec fn entry_frame(e: VectorEntry, level: int, position: int) -> Seq<u8> {
    vector_record(e.vector@, RecordHead { deleted: e.deleted, level: level as u8, position: position as u32 })
        + text_frame(e.id@) + meta_frame(e.metadata)
}

/// Reads a framed text at `at`: the text and the position after it.
fn read_text_frame(b: &[u8], at: usize) -> (r: Result<(String, usize), VectorError>)
    requires
        at <= b@.len(),
    ensures
        r matches Ok((t, next)) ==> at < next <= b@.len() && b@.subrange(at as int, next as int) == text_frame(t@),
        r is Err ==> r == Err::<(String, usize), VectorError>(VectorError::SerializationError),
        forall|s: Seq<char>|
            #![trigger text_frame(s)]
            encode_utf8(s).len() <= u32::MAX && at + text_frame(s).len() <= b@.len() && b@.subrange(
                at as int,
                at + text_frame(s).len(),
            ) == text_frame(s) ==> (r matches Ok((t, next)) && t@ == s && next == at + text_frame(s).len()),
{
    let ghost framed = exists|s: Seq<char>|
        encode_utf8(s).len() <= u32::MAX && at + text_frame(s).len() <= b@.len() && b@.subrange(
            at as int,
            at + text_frame(s).len(),
        ) == #[trigger] text_frame(s);
    let ghost ws: Seq<char> = choose|s: Seq<char>|
        encode_utf8(s).len() <= u32::MAX && at + text_frame(s).len() <= b@.len() && b@.subrange(
            at as int,
            at + text_frame(s).len(),
        ) == #[trigger] text_frame(s);
    proof {
        if framed {
            let f = text_frame(ws);
            assert(b@.subrange(at as int, at + 4) =~= f.subrange(0, 4));
            assert(f.subrange(0, 4) =~= be32(encode_utf8(ws).len() as u32));
            crate::codec::lemma_be32_round_trip(encode_utf8(ws).len() as u32);
            assert(crate::codec::be32_at(b@, at as int) == crate::codec::be32_at(f, 0));
        }
    }
    if b.len() - at < 4 {
        return Err(VectorError::SerializationError);
    }
    let len = read_be32(b, at) as usize;
    if b.len() - at - 4 < len {
        return Err(VectorError::SerializationError);
    }
    let piece = slice_subrange(b, at + 4, at + 4 + len);
    proof {
        if framed {
            let f = text_frame(ws);
            assert(len == encode_utf8(ws).len());
            assert(piece@ =~= f.subrange(4, f.len() as int));
            assert(piece@ =~= encode_utf8(ws));
            vstd::utf8::encode_utf8_valid_utf8(ws);
        }
    }
    let t = decode_text(piece)?;
    proof {
        crate::codec::lemma_be32_bytes(b@, at as int);
        assert(encode_utf8(t@).len() == len);
        assert(b@.subrange(at as int, (at + 4 + len) as int) =~= text_frame(t@));
        assert forall|s: Seq<char>|
            #![trigger text_frame(s)]
            encode_utf8(s).len() <= u32::MAX && at + text_frame(s).len() <= b@.len() && b@.subrange(
                at as int,
                at + text_frame(s).len(),
            ) == text_frame(s) implies t@ == s && at + 4 + len == at + text_frame(s).len() by {
            let f = text_frame(s);
            assert(b@.subrange(at as int, at + 4) =~= f.subrange(0, 4));
            assert(f.subrange(0, 4) =~= be32(encode_utf8(s).len() as u32));
            crate::codec::lemma_be32_round_trip(encode_utf8(s).len() as u32);
            assert(crate::codec::be32_at(b@, at as int) == crate::codec::be32_at(f, 0));
            assert(len == encode_utf8(s).len());
            assert(piece@ =~= f.subrange(4, f.len() as int));
            assert(f.subrange(4, f.len() as int) =~= encode_utf8(s));
            assert(encode_utf8(t@) == encode_utf8(s));
            vstd::utf8::encode_utf8_decode_utf8(s);
            vstd::utf8::encode_utf8_decode_utf8(t@);
            assert(f.len() == 4 + encode_utf8(s).len());
        }
    }
    Ok((t, at + 4 + len))
}

/// Reads the vector record at `pos`: components, head, and the position after it.
fn parse_record(b: &[u8], pos: usize) -> (r: Result<(Vec<u32>, RecordHead, usize), VectorError>)
    requires
        pos <= b@.len(),
    ensures
        r matches Ok((v, head, next)) ==> pos < next <= b@.len() && b@.subrange(pos as int, next as int)
            == vector_record(v@, head),
        r is Err ==> r == Err::<(Vec<u32>, RecordHead, usize), VectorError>(VectorError::SerializationError),
        forall|v: Seq<u32>, h: RecordHead|
            #![trigger vector_record(v, h)]
            v.len() <= u32::MAX && pos + vector_record(v, h).len() <= b@.len() && b@.subrange(
                pos as int,
                pos + vector_record(v, h).len(),
            ) == vector_record(v, h) ==> (r matches Ok((v2, h2, next)) && v2@ == v && h2 == h && next == pos
                + vector_record(v, h).len()),
{
    if b.len() - pos < 11 {
        proof {
            assert forall|v: Seq<u32>, h: RecordHead|
                #![trigger vector_record(v, h)]
                v.len() <= u32::MAX && pos + vector_record(v, h).len() <= b@.len() && b@.subrange(
                    pos as int,
                    pos + vector_record(v, h).len(),
                ) == vector_record(v, h) implies false by {
                assert(vector_record(v, h).len() >= 11);
            }
        }
        return Err(VectorError::SerializationError);
    }
    let n = read_be32(b, pos + 7) as u64;
    proof {
        assert forall|v: Seq<u32>, h: RecordHead|
            #![trigger vector_record(v, h)]
            v.len() <= u32::MAX && pos + vector_record(v, h).len() <= b@.len() && b@.subrange(
                pos as int,
                pos + vector_record(v, h).len(),
            ) == vector_record(v, h) implies n == v.len() && vector_record(v, h).len() == 11 + 4 * n by {
            let rr = vector_record(v, h);
            assert(rr.subrange(7, 11) =~= be32(v.len() as u32));
            assert(b@.subrange(pos + 7, pos + 11) =~= rr.subrange(7, 11));
            crate::codec::lemma_be32_round_trip(v.len() as u32);
            assert(crate::codec::be32_at(b@, pos + 7) == crate::codec::be32_at(rr.subrange(7, 11), 0));
        }
    }
    if ((b.len() - pos) as u64) < 11 + 4 * n {
        return Err(VectorError::SerializationError);
    }
    let next = pos + (11 + 4 * n) as usize;
    let rec = slice_subrange(b, pos, next);
    let (v, head) = decode_vector(rec)?;
    proof {
        assert forall|v2: Seq<u32>, h2: RecordHead|
            #![trigger vector_record(v2, h2)]
            v2.len() <= u32::MAX && pos + vector_record(v2, h2).len() <= b@.len() && b@.subrange(
                pos as int,
                pos + vector_record(v2, h2).len(),
            ) == vector_record(v2, h2) implies v@ == v2 && head == h2 by {
            crate::codec::lemma_vector_record_round_trip(v2, h2, v@, head);
        }
    }
    Ok((v, head, next))
}

/// Reads the metadata frame at `at`: the metadata and the position after it.
fn parse_meta(b: &[u8], at: usize) -> (r: Result<(Option<String>, usize), VectorError>)
    requires
        at <= b@.len(),
    ensures
        r matches Ok((m, next)) ==> at < next <= b@.len() && b@.subrange(at as int, next as int) == meta_frame(m),
        r is Err ==> r == Err::<(Option<String>, usize), VectorError>(VectorError::SerializationError),
        forall|m: Option<String>|
            #![trigger meta_frame(m)]
            (m matches Some(t) ==> encode_utf8(t@).len() <= u32::MAX) && at + meta_frame(m).len() <= b@.len()
                && b@.subrange(at as int, at + meta_frame(m).len()) == meta_frame(m) ==> (r matches Ok((m2, next))
                && meta_frame(m2) == meta_frame(m) && next == at + meta_frame(m).len()),
{
    if at >= b.len() {
        return Err(VectorError::SerializationError);
    }
    let flag = b[at];
    if flag == 0 {
        proof {
            assert(b@.subrange(at as int, at + 1) =~= meta_frame(None));
            assert forall|m: Option<String>|
                #![trigger meta_frame(m)]
                (m matches Some(t) ==> encode_utf8(t@).len() <= u32::MAX) && at + meta_frame(m).len() <= b@.len()
                    && b@.subrange(at as int, at + meta_frame(m).len()) == meta_frame(m) implies meta_frame(None)
                == meta_frame(m) by {
                assert(b@[at as int] == meta_frame(m)[0]);
            }
        }
        return Ok((None, at + 1));
    }
    if flag != 1 {
        proof {
            assert forall|m: Option<String>|
                #![trigger meta_frame(m)]
                (m matches Some(t) ==> encode_utf8(t@).len() <= u32::MAX) && at + meta_frame(m).len() <= b@.len()
                    && b@.subrange(at as int, at + meta_frame(m).len()) == meta_frame(m) implies false by {
                assert(b@[at as int] == meta_frame(m)[0]);
            }
        }
        return Err(VectorError::SerializationError);
    }
    proof {
        assert forall|m: Option<String>|
            #![trigger meta_frame(m)]
            (m matches Some(t) ==> encode_utf8(t@).len() <= u32::MAX) && at + meta_frame(m).len() <= b@.len()
                && b@.subrange(at as int, at + meta_frame(m).len()) == meta_frame(m) implies (m is Some && b@.subrange(
            at + 1,
            at + 1 + text_frame(m->0@).len(),
        ) == text_frame(m->0@)) by {
            assert(b@[at as int] == meta_frame(m)[0]);
            if m is Some {
                let q = meta_frame(m);
                assert(b@.subrange(at + 1, at + 1 + text_frame(m->0@).len()) =~= q.subrange(1, q.len() as int));
            }
        }
    }
    let (t, next) = read_text_frame(b, at + 1)?;
    proof {
        assert(b@.subrange(at as int, next as int) =~= seq![1u8] + b@.subrange(at + 1, next as int));
        assert(b@.subrange(at as int, next as int) =~= meta_frame(Some(t)));
    }
    Ok((Some(t), next))
}

/// Appends bytes.
fn append_bytes(out: &mut Vec<u8>, b: &[u8])
    ensures
        final(out)@ == old(out)@ + b@,
{
    let ghost start = out@;
    let mut i: usize = 0;
    while i < b.len()
        invariant
            i <= b@.len(),
            out@ == start + b@.subrange(0, i as int),
        decreases b@.len() - i,
    {
        out.push(b[i]);
        i += 1;
    }
    assert(b@.subrange(0, b@.len() as int) =~= b@);
}

/// Appends a framed text.
fn push_text_frame(out: &mut Vec<u8>, s: &str)
    requires
        encode_utf8(s@).len() <= u32::MAX,
    ensures
        final(out)@ == old(out)@ + text_frame(s@),
{
    let bytes = encode_text(s);
    push_be32(out, bytes.len() as u32);
    append_bytes(out, bytes.as_slice());
    assert(final(out)@ =~= old(out)@ + text_frame(s@));
}

/// A vector record read back from the store: identifier, components as the
/// caller gave them, record head, metadata.
#[derive(Debug, Clone)]
pub struct StoredVector {
    pub id: String,
    pub vector: Vec<u32>,
    pub head: RecordHead,
    pub metadata: Option<String>,
}

/// Whether no other record than the one at `k` carries its identifier.
pub open spec fn sole_record(records: Seq<StoredVector>, k: int) -> bool {
    forall|j: int| 0 <= j < records.len() && j != k ==> records[j].id@ != records[k].id@
}

/// One vector of a batch insert, with the layer drawn for it.
#[derive(Debug, Clone)]
pub struct BatchItem {
    pub id: String,
    pub vector: Vec<u32>,
    pub metadata: Option<String>,
    pub level: usize,
}

/// Whether item `i` of a batch goes in: its vector has the dimension, and
/// its identifier is neither stored before the batch nor taken by an
/// earlier item that went in.
pub open spec fn batch_item_accepted(
    items: Seq<BatchItem>,
    results: Seq<Result<(), VectorError>>,
    dimension: usize,
    stored_before: Set<Seq<char>>,
    i: int,
) -> bool {
    &&& items[i].vector@.len() == dimension
    &&& !stored_before.contains(items[i].id@)
    &&& forall|j: int| 0 <= j < i && results[j] is Ok ==> items[j].id@ != items[i].id@
}

/// A node together with its distance to the current query.
#[derive(Debug, Clone, Copy, PartialEq, Eq, Structural)]
pub struct Candidate {
    /// Distance as a single-precision bit pattern.
    pub distance: u32,
    /// Position of the node in the arena.
    pub node: usize,
}

/// Whether a sequence of candidates is in ascending order of distance.
pub open spec fn sorted_by_distance(s: Seq<Candidate>) -> bool {
    forall|i: int, j: int|
        0 <= i < j < s.len() ==> order_key_spec(s[i].distance) <= order_key_spec(
            s[j].distance,
        )
}

/// Whether no node appears twice among the candidates.
pub open spec fn distinct_nodes(s: Seq<Candidate>) -> bool {
    forall|i: int, j: int| 0 <= i < j < s.len() ==> s[i].node != s[j].node
}

/// The nodes of a candidate list, in order.
pub open spec fn nodes_of(s: Seq<Candidate>) -> Seq<usize> {
    s.map_values(|c: Candidate| c.node)
}

/// The members of `s` from position `t` on.
pub open spec fn suffix_set(s: Seq<usize>, t: int) -> Set<usize> {
    Set::new(|x: usize| s.subrange(t, s.len() as int).contains(x))
}

/// A normaliser may be called on any vector and keeps its length.
pub open spec fn normalizer_ok<N: Fn(&Vec<u32>) -> Vec<u32>>(normalize: &N) -> bool {
    &&& forall|v: &Vec<u32>| #[trigger] normalize.requires((v,))
    &&& forall|v: &Vec<u32>, r: Vec<u32>| #[trigger] normalize.ensures((v,), r) ==> r@.len() == v@.len()
}

/// `stored` is how `v` is kept under `metric`: normalised for cosine, as given
/// otherwise.
pub open spec fn stored_form<N: Fn(&Vec<u32>) -> Vec<u32>>(
    metric: DistanceMetric,
    normalize: &N,
    v: Seq<u32>,
    stored: Seq<u32>,
) -> bool {
    if metric == DistanceMetric::Cosine {
        exists|w: Vec<u32>, r: Vec<u32>| w@ == v && #[trigger] normalize.ensures((&w,), r) && r@ == stored
    } else {
        stored == v
    }
}

/// A copy of a vector of bit patterns.
pub fn copy_bits(v: &Vec<u32>) -> (r: Vec<u32>)
    ensures
        r@ == v@,
{
    let mut r: Vec<u32> = Vec::new();
    let mut i: usize = 0;
    while i < v.len()
        invariant
            i <= v@.len(),
            r@ == v@.subrange(0, i as int),
        decreases v@.len() - i,
    {
        r.push(v[i]);
        i += 1;
    }
    assert(r@ =~= v@);
    r
}

/// A copy of optional text.
pub fn copy_text(m: &Option<String>) -> (r: Option<String>)
    ensures
        r == *m,
{
    match m {
        Some(s) => Some(s.clone()),
        None => None,
    }
}

/// The nodes of a candidate list, in order.
fn candidate_nodes(c: &Vec<Candidate>) -> (r: Vec<usize>)
    ensures
        r@ == nodes_of(c@),
{
    let mut r: Vec<usize> = Vec::new();
    let mut i: usize = 0;
    while i < c.len()
        invariant
            i <= c@.len(),
            r@ == nodes_of(c@).subrange(0, i as int),
        decreases c@.len() - i,
    {
        r.push(c[i].node);
        i += 1;
    }
    assert(r@ =~= nodes_of(c@));
    r
}

/// Every visited node left out of `w` lies no nearer than every node kept
/// in `w`, and then `w` holds at least `ef` nodes.
pub open spec fn keeps_nearest(w: Seq<Candidate>, vd: Map<usize, u32>, ef: usize) -> bool {
    forall|x: usize|
        #[trigger] vd.contains_key(x) && !nodes_of(w).contains(x) ==> w.len() >= ef && forall|k: int|
            0 <= k < w.len() ==> order_key_spec(#[trigger] w[k].distance) <= order_key_spec(vd[x])
}

/// `vd` gives the distance of each node of `w` as `w` records it.
pub open spec fn records_distances(w: Seq<Candidate>, vd: Map<usize, u32>) -> bool {
    forall|k: int| 0 <= k < w.len() ==> vd.contains_key(#[trigger] w[k].node) && vd[w[k].node] == w[k].distance
}

/// Pushing a newly visited node `c` into the sorted list `w` (and dropping
/// the farthest when the list grows past `ef`) keeps `w` the nearest of the
/// visited nodes, provided `c` was pushed because `w` was not full or `c`
/// beats its farthest node.
proof fn lemma_keeps_push(w: Seq<Candidate>, p: int, c: Candidate, vd: Map<usize, u32>, ef: usize)
    requires
        0 <= p <= w.len(),
        keeps_nearest(w, vd, ef),
        records_distances(w, vd),
        !vd.contains_key(c.node),
        sorted_by_distance(w),
        sorted_by_distance(w.insert(p, c)),
        distinct_nodes(w.insert(p, c)),
        w.len() >= ef && w.len() > 0 ==> order_key_spec(c.distance) < order_key_spec(w[w.len() - 1].distance),
        w.len() == 0 ==> forall|x: usize| #[trigger] vd.contains_key(x) ==> nodes_of(w).contains(x),
    ensures
        keeps_nearest(w.insert(p, c), vd.insert(c.node, c.distance), ef),
        records_distances(w.insert(p, c), vd.insert(c.node, c.distance)),
        w.insert(p, c).len() > ef ==> keeps_nearest(w.insert(p, c).drop_last(), vd.insert(c.node, c.distance), ef)
            && records_distances(w.insert(p, c).drop_last(), vd.insert(c.node, c.distance)),
{
    let v2 = vd.insert(c.node, c.distance);
    let w2 = w.insert(p, c);
    assert(nodes_of(w2) =~= nodes_of(w).insert(p, c.node));
    lemma_insert_contains(nodes_of(w), p, c.node);
    assert forall|k: int| 0 <= k < w2.len() implies v2.contains_key(#[trigger] w2[k].node) && v2[w2[k].node] == w2[k].distance by {
        if k < p {
            assert(w2[k] == w[k]);
            assert(w[k].node != c.node);
        } else if k > p {
            assert(w2[k] == w[k - 1]);
            assert(w[k - 1].node != c.node);
        }
    }
    assert forall|x: usize| #[trigger] v2.contains_key(x) && !nodes_of(w2).contains(x) implies w2.len() >= ef && forall|k: int|
        0 <= k < w2.len() ==> order_key_spec(#[trigger] w2[k].distance) <= order_key_spec(v2[x]) by {
        assert(x != c.node);
        assert(vd.contains_key(x) && !nodes_of(w).contains(x));
        assert(v2[x] == vd[x]);
        assert forall|k: int| 0 <= k < w2.len() implies order_key_spec(#[trigger] w2[k].distance) <= order_key_spec(v2[x]) by {
            if k < p {
                assert(w2[k] == w[k]);
            } else if k > p {
                assert(w2[k] == w[k - 1]);
            } else {
                assert(w.len() > 0);
                assert(w.len() >= ef);
                assert(order_key_spec(w[w.len() - 1].distance) <= order_key_spec(vd[x]));
            }
        }
    }
    if w2.len() > ef {
        let w3 = w2.drop_last();
        let last = w2[w2.len() - 1];
        assert(nodes_of(w3) =~= nodes_of(w2).drop_last());
        assert forall|k: int| 0 <= k < w3.len() implies v2.contains_key(#[trigger] w3[k].node) && v2[w3[k].node] == w3[k].distance by {
            assert(w3[k] == w2[k]);
        }
        assert forall|x: usize| #[trigger] v2.contains_key(x) && !nodes_of(w3).contains(x) implies w3.len() >= ef && forall|k: int|
            0 <= k < w3.len() ==> order_key_spec(#[trigger] w3[k].distance) <= order_key_spec(v2[x]) by {
            if nodes_of(w2).contains(x) {
                let q = choose|q: int| 0 <= q < w2.len() && nodes_of(w2)[q] == x;
                if q < w3.len() {
                    assert(nodes_of(w3)[q] == x);
                }
                assert(q == w2.len() - 1);
                assert(v2[x] == last.distance);
                assert forall|k: int| 0 <= k < w3.len() implies order_key_spec(#[trigger] w3[k].distance) <= order_key_spec(v2[x]) by {
                    assert(w3[k] == w2[k]);
                }
            } else {
                assert forall|k: int| 0 <= k < w3.len() implies order_key_spec(#[trigger] w3[k].distance) <= order_key_spec(v2[x]) by {
                    assert(w3[k] == w2[k]);
                }
            }
        }
    }
}

proof fn lemma_remove_contains(s: Seq<usize>, i: int)
    requires
        0 <= i < s.len(),
    ensures
        forall|y: usize| #[trigger] s.contains(y) && y != s[i] ==> s.remove(i).contains(y),
        forall|y: usize| #[trigger] s.remove(i).contains(y) ==> s.contains(y),
{
    let t = s.remove(i);
    assert forall|y: usize| #[trigger] s.contains(y) && y != s[i] implies t.contains(y) by {
        let k = choose|k: int| 0 <= k < s.len() && s[k] == y;
        if k < i {
            assert(t[k] == y);
        } else {
            assert(t[k - 1] == y);
        }
    }
    assert forall|y: usize| #[trigger] t.contains(y) implies s.contains(y) by {
        let k = choose|k: int| 0 <= k < t.len() && t[k] == y;
        if k < i {
            assert(s[k] == y);
        } else {
            assert(s[k + 1] == y);
        }
    }
}

/// A distance kernel may be called on any two vectors.
pub open spec fn kernel_total<D: Fn(&Vec<u32>, &Vec<u32>) -> u32>(dist: &D) -> bool {
    forall|a: &Vec<u32>, b: &Vec<u32>| #[trigger] dist.requires((a, b))
}

/// The set of all `usize` values below `n`.
pub open spec fn below(n: usize) -> Set<usize> {
    Set::new(|x: usize| x < n)
}

proof fn lemma_below_len(n: usize)
    ensures
        below(n).finite(),
        below(n).len() == n,
    decreases n,
{
    if n == 0 {
        assert(below(0) =~= Set::empty());
    } else {
        let m = (n - 1) as usize;
        lemma_below_len(m);
        assert(below(n) =~= below(m).insert(m));
    }
}

/// A finite set of positions below `n` has at most `n` members.
proof fn lemma_bounded_set_len(s: Set<usize>, n: usize)
    requires
        s.finite(),
        forall|x: usize| s.contains(x) ==> x < n,
    ensures
        s.len() <= n,
{
    lemma_below_len(n);
    vstd::set_lib::lemma_len_subset(s, below(n));
}

proof fn lemma_push_no_dup(s: Seq<usize>, x: usize)
    requires
        s.no_duplicates(),
        !s.contains(x),
    ensures
        s.push(x).no_duplicates(),
{
    assert forall|i: int, j: int| 0 <= i < j < s.len() + 1 implies s.push(x)[i] != s.push(x)[j] by {
        if j == s.len() {
            assert(s[i] == s.push(x)[i]);
        }
    }
}

/// Inserts a candidate into a list sorted by distance, after any candidates at
/// the same distance, and returns the position it took.
fn insert_sorted(w: &mut Vec<Candidate>, c: Candidate) -> (p: usize)
    requires
        sorted_by_distance(old(w)@),
    ensures
        p <= old(w)@.len(),
        final(w)@ == old(w)@.insert(p as int, c),
        sorted_by_distance(final(w)@),
{
    let key = order_key(c.distance);
    let mut p: usize = 0;
    while p < w.len() && order_key(w[p].distance) <= key
        invariant
            p <= w@.len(),
            sorted_by_distance(w@),
            forall|i: int| 0 <= i < p ==> order_key_spec(#[trigger] w@[i].distance) <= key,
            key == order_key_spec(c.distance),
        decreases w@.len() - p,
    {
        p += 1;
    }
    let ghost before = w@;
    w.insert(p, c);
    assert forall|i: int, j: int| 0 <= i < j < w@.len() implies order_key_spec(
        w@[i].distance,
    ) <= order_key_spec(w@[j].distance) by {
        if j < p {
        } else if j == p {
        } else if i < p {
            assert(w@[j] == before[j - 1]);
        } else if i == p {
            assert(w@[j] == before[j - 1]);
            assert(order_key_spec(before[p as int].distance) > key);
        } else {
            assert(w@[j] == before[j - 1]);
            assert(w@[i] == before[i - 1]);
        }
    }
    p
}

/// Position of a candidate at the smallest distance.
fn nearest_index(c: &Vec<Candidate>) -> (r: usize)
    requires
        c@.len() > 0,
    ensures
        r < c@.len(),
        forall|i: int|
            0 <= i < c@.len() ==> order_key_spec(c@[r as int].distance) <= order_key_spec(
                #[trigger] c@[i].distance,
            ),
{
    let mut best: usize = 0;
    let mut i: usize = 1;
    while i < c.len()
        invariant
            best < c@.len(),
            1 <= i <= c@.len(),
            forall|j: int|
                0 <= j < i ==> order_key_spec(c@[best as int].distance) <= order_key_spec(
                    #[trigger] c@[j].distance,
                ),
        decreases c@.len() - i,
    {
        if order_key(c[i].distance) < order_key(c[best].distance) {
            best = i;
        }
        i += 1;
    }
    best
}

/// The graph index. Vectors are kept in an arena (`entries`), the graph
/// structure beside it (`nodes`), both indexed by arena position; `by_hash`
/// finds the positions of an identifier from its stable hash.
pub struct HnswIndex {
    config: HnswConfig,
    metric: DistanceMetric,
    dimension: usize,
    entry_point: Option<usize>,
    nodes: Vec<HnswNode>,
    entries: Vec<VectorEntry>,
    by_hash: HashMap<u64, Vec<usize>>,
}

impl HnswIndex {
    /// Number of stored entries, deleted ones included.
    pub closed spec fn count(&self) -> int {
        self.entries@.len() as int
    }

    pub closed spec fn spec_dimension(&self) -> usize {
        self.dimension
    }

    pub closed spec fn spec_metric(&self) -> DistanceMetric {
        self.metric
    }

    pub closed spec fn spec_config(&self) -> HnswConfig {
        self.config
    }

    pub closed spec fn entry(&self, i: int) -> VectorEntry {
        self.entries@[i]
    }

    pub closed spec fn level_of(&self, i: int) -> int {
        self.nodes@[i].level as int
    }

    /// Whether node `i` takes part in layer `l`.
    pub closed spec fn has_layer(&self, i: int, l: int) -> bool {
        0 <= i < self.nodes@.len() && 0 <= l < self.nodes@[i].connections@.len()
    }

    /// The neighbour list of node `i` on layer `l`.
    pub closed spec fn links(&self, i: int, l: int) -> Seq<usize> {
        self.nodes@[i].connections@[l]@
    }

    /// Whether node `j` is a neighbour of node `i` on layer `l`.
    pub closed spec fn linked(&self, i: int, l: int, j: usize) -> bool {
        self.has_layer(i, l) && self.links(i, l).contains(j)
    }

    /// The neighbour cap on layer `l`.
    pub closed spec fn cap(&self, l: int) -> int {
        if l == 0 {
            self.config.max_connections_layer0 as int
        } else {
            self.config.max_connections as int
        }
    }

    /// One node per entry, one neighbour list per layer of a node, and no
    /// layer above the cap.
    pub closed spec fn shape_wf(&self) -> bool {
        &&& self.nodes@.len() == self.entries@.len()
        &&& forall|i: int|
            0 <= i < self.nodes@.len() ==> {
                &&& (#[trigger] self.nodes@[i]).connections@.len() == self.nodes@[i].level + 1
                &&& self.nodes@[i].level <= MAX_LEVEL
            }
    }

    /// No neighbour list repeats a node.
    pub closed spec fn lists_wf(&self) -> bool {
        forall|i: int, l: int| #[trigger]
            self.has_layer(i, l) ==> self.links(i, l).no_duplicates()
    }

    /// Every edge stays inside the arena, is no self edge, and is present in
    /// both directions, except edges from a node of `pending` to node `a` on
    /// layer `l`, whose reverse may be missing.
    pub closed spec fn edges_ok(&self, l: int, a: usize, pending: Set<usize>) -> bool {
        forall|i: int, m: int, j: usize| #[trigger]
            self.linked(i, m, j) ==> {
                &&& (j as int) < self.nodes@.len()
                &&& j as int != i
                &&& (self.linked(j as int, m, i as usize) || (m == l && j == a && pending.contains(
                    i as usize,
                )))
            }
    }

    /// Shape of the graph, with every edge present in both directions.
    pub closed spec fn graph_wf(&self) -> bool {
        &&& self.shape_wf()
        &&& self.lists_wf()
        &&& self.edges_ok(0, 0, Set::empty())
    }

    /// `self` differs from `other` at most in the neighbour lists.
    pub closed spec fn same_shape(&self, other: &Self) -> bool {
        &&& self.config == other.config
        &&& self.metric == other.metric
        &&& self.dimension == other.dimension
        &&& self.entry_point == other.entry_point
        &&& self.entries@ == other.entries@
        &&& self.by_hash@ == other.by_hash@
        &&& self.nodes@.len() == other.nodes@.len()
        &&& forall|k: int|
            0 <= k < self.nodes@.len() ==> {
                &&& (#[trigger] self.nodes@[k]).level == other.nodes@[k].level
                &&& self.nodes@[k].connections@.len() == other.nodes@[k].connections@.len()
            }
    }

    /// `self` differs from `other` at most in the neighbour list of node `i`
    /// on layer `l`.
    pub closed spec fn same_except_list(&self, other: &Self, i: int, l: int) -> bool {
        &&& self.same_shape(other)
        &&& forall|k: int, m: int|
            #![trigger self.links(k, m)]
            other.has_layer(k, m) && (k != i || m != l) ==> self.links(k, m) == other.links(k, m)
    }

    /// Every neighbour list respects the cap of its layer.
    pub closed spec fn caps_hold(&self) -> bool {
        forall|i: int, l: int| #[trigger]
            self.has_layer(i, l) ==> self.links(i, l).len() <= self.cap(l)
    }

    /// The entry point exists exactly when the graph is non-empty, and sits on
    /// the highest layer of any node.
    pub closed spec fn entry_wf(&self) -> bool {
        &&& (self.entry_point is None <==> self.entries@.len() == 0)
        &&& self.entry_point matches Some(e) ==> {
            &&& (e as int) < self.nodes@.len()
            &&& forall|i: int|
                0 <= i < self.nodes@.len() ==> #[trigger] self.nodes@[i].level
                    <= self.nodes@[e as int].level
        }
    }

    /// Every vector has the index's dimension, and no identifier repeats.
    pub closed spec fn entries_wf(&self) -> bool {
        &&& forall|i: int|
            0 <= i < self.entries@.len() ==> (#[trigger] self.entries@[i]).vector@.len()
                == self.dimension
        &&& forall|i: int, j: int|
            0 <= i < j < self.entries@.len() ==> (#[trigger] self.entries@[i]).id@
                != (#[trigger] self.entries@[j]).id@
    }

    /// Every entry is listed under the hash of its identifier, and every
    /// listed position is an entry.
    pub closed spec fn ids_indexed(&self) -> bool {
        &&& forall|i: int|
            0 <= i < self.entries@.len() ==> {
                &&& self.by_hash@.contains_key(stable_hash((#[trigger] self.entries@[i]).id@))
                &&& self.by_hash@[stable_hash(self.entries@[i].id@)]@.contains(i as usize)
            }
        &&& forall|h: u64, j: int|
            #![trigger self.by_hash@[h]@[j]]
            self.by_hash@.contains_key(h) && 0 <= j < self.by_hash@[h]@.len() ==> (self.by_hash@[h]@[j] as int)
                < self.entries@.len()
    }

    /// The invariant every completed operation leaves the index in.
    pub closed spec fn wf(&self) -> bool {
        &&& self.graph_wf()
        &&& self.caps_hold()
        &&& self.entry_wf()
        &&& self.entries_wf()
        &&& self.ids_indexed()
    }

    /// Every layer-`l` neighbour of node `y` other than `skip` is in `vis`.
    pub closed spec fn expanded(&self, y: usize, l: int, skip: usize, vis: Set<usize>) -> bool {
        forall|nb: usize| #[trigger] self.linked(y as int, l, nb) && nb != skip ==> vis.contains(nb)
    }

    proof fn lemma_expanded_grow(&self, y: usize, l: int, skip: usize, v0: Set<usize>, v1: Set<usize>)
        requires
            self.expanded(y, l, skip, v0),
            v0.subset_of(v1),
        ensures
            self.expanded(y, l, skip, v1),
    {
    }

    /// `c` is node `c.node`, on layer `layer` or above, at distance
    /// `c.distance` from `q` as the kernel computes it.
    pub closed spec fn scored<D: Fn(&Vec<u32>, &Vec<u32>) -> u32>(
        &self,
        q: &Vec<u32>,
        layer: int,
        dist: &D,
        c: Candidate,
    ) -> bool {
        &&& (c.node as int) < self.nodes@.len()
        &&& self.nodes@[c.node as int].level >= layer
        &&& dist.ensures((q, &self.entries@[c.node as int].vector), c.distance)
    }

    /// Appends `j` to the neighbour list of node `i` on layer `l`.
    fn push_link(&mut self, i: usize, l: usize, j: usize)
        requires
            old(self).has_layer(i as int, l as int),
        ensures
            final(self).same_except_list(old(self), i as int, l as int),
            final(self).links(i as int, l as int) == old(self).links(i as int, l as int).push(j),
    {
        self.nodes[i].connections[l].push(j);
    }

    /// Replaces the neighbour list of node `i` on layer `l`.
    fn set_list(&mut self, i: usize, l: usize, v: Vec<usize>)
        requires
            old(self).has_layer(i as int, l as int),
        ensures
            final(self).same_except_list(old(self), i as int, l as int),
            final(self).links(i as int, l as int) == v@,
    {
        self.nodes[i].connections[l] = v;
    }

    /// Drops `j` from the neighbour list of node `i` on layer `l`, if present.
    fn unlink_one_side(&mut self, i: usize, l: usize, j: usize)
        requires
            old(self).has_layer(i as int, l as int),
            old(self).links(i as int, l as int).no_duplicates(),
        ensures
            final(self).same_except_list(old(self), i as int, l as int),
            final(self).links(i as int, l as int).no_duplicates(),
            final(self).links(i as int, l as int).len() <= old(self).links(i as int, l as int).len(),
            forall|x: usize|
                #[trigger] final(self).links(i as int, l as int).contains(x) <==> (old(
                    self,
                ).links(i as int, l as int).contains(x) && x != j),
    {
        let ghost before = self.links(i as int, l as int);
        let len = self.nodes[i].connections[l].len();
        let mut p: usize = 0;
        while p < len && self.nodes[i].connections[l][p] != j
            invariant
                p <= len,
                len == before.len(),
                self.has_layer(i as int, l as int),
                self.links(i as int, l as int) == before,
                forall|k: int| 0 <= k < p ==> before[k] != j,
            decreases len - p,
        {
            p += 1;
        }
        if p < len {
            self.nodes[i].connections[l].remove(p);
            let ghost after = self.links(i as int, l as int);
            assert(after =~= before.remove(p as int));
            assert forall|x: usize| #[trigger] after.contains(x) <==> (before.contains(x) && x != j) by {
                if after.contains(x) {
                    let k = choose|k: int| 0 <= k < after.len() && after[k] == x;
                    if k < p {
                        assert(before[k] == x);
                    } else {
                        assert(before[k + 1] == x);
                    }
                }
                if before.contains(x) && x != j {
                    let k = choose|k: int| 0 <= k < before.len() && before[k] == x;
                    if k < p {
                        assert(after[k] == x);
                    } else {
                        assert(k != p);
                        assert(after[k - 1] == x);
                    }
                }
            }
            assert forall|a: int, b: int| 0 <= a < b < after.len() implies after[a] != after[b] by {
                let a0 = if a < p { a } else { a + 1 };
                let b0 = if b < p { b } else { b + 1 };
                assert(after[a] == before[a0]);
                assert(after[b] == before[b0]);
            }
        } else {
            assert(!before.contains(j));
        }
    }

    /// Whether node `j` is a neighbour of node `i` on layer `l`.
    fn has_link(&self, i: usize, l: usize, j: usize) -> (r: bool)
        requires
            self.has_layer(i as int, l as int),
        ensures
            r == self.linked(i as int, l as int, j),
    {
        let list = &self.nodes[i].connections[l];
        let mut p: usize = 0;
        while p < list.len()
            invariant
                p <= list@.len(),
                self.has_layer(i as int, l as int),
                list@ == self.links(i as int, l as int),
                forall|k: int| 0 <= k < p ==> list@[k] != j,
            decreases list@.len() - p,
        {
            if list[p] == j {
                assert(self.links(i as int, l as int)[p as int] == j);
                return true;
            }
            p += 1;
        }
        false
    }

    /// Links nodes `a` and `b` on layer `l` in both directions, unless they
    /// are linked already.
    fn connect(&mut self, a: usize, b: usize, l: usize)
        requires
            old(self).graph_wf(),
            old(self).has_layer(a as int, l as int),
            old(self).has_layer(b as int, l as int),
            a != b,
        ensures
            final(self).graph_wf(),
            final(self).same_shape(old(self)),
            final(self).linked(a as int, l as int, b),
            forall|k: int, m: int, x: usize| old(self).linked(k, m, x) ==> #[trigger] final(self).linked(k, m, x),
            final(self).links(a as int, l as int).len() <= old(self).links(a as int, l as int).len() + 1,
            final(self).links(b as int, l as int).len() <= old(self).links(b as int, l as int).len() + 1,
            forall|k: int, m: int|
                #![trigger final(self).links(k, m)]
                old(self).has_layer(k, m) && (m != l || (k != a && k != b)) ==> final(self).links(k, m)
                    == old(self).links(k, m),
    {
        if self.has_link(a, l, b) {
            return;
        }
        let ghost s0 = *self;
        let ghost la = s0.links(a as int, l as int);
        let ghost lb = s0.links(b as int, l as int);
        assert(!s0.linked(b as int, l as int, a));
        self.push_link(a, l, b);
        let ghost s1 = *self;
        self.push_link(b, l, a);
        assert forall|k: int, m: int, x: usize| s0.linked(k, m, x) implies #[trigger] self.linked(k, m, x) by {
            assert(s0.has_layer(k, m));
            if k == a && m == l {
                let q = choose|q: int| 0 <= q < la.len() && la[q] == x;
                assert(self.links(k, m) == la.push(b));
                assert(self.links(k, m)[q] == x);
            } else if k == b && m == l {
                let q = choose|q: int| 0 <= q < lb.len() && lb[q] == x;
                assert(self.links(k, m) == lb.push(a));
                assert(self.links(k, m)[q] == x);
            } else {
                assert(self.links(k, m) == s0.links(k, m));
            }
        }
        assert(self.links(a as int, l as int).contains(b)) by {
            assert(self.links(a as int, l as int)[s0.links(a as int, l as int).len() as int] == b);
        }
        assert forall|i: int, m: int| #[trigger] self.has_layer(i, m) implies self.links(i, m).no_duplicates() by {
            assert(s0.has_layer(i, m));
            if i == a && m == l {
                assert(self.links(i, m) == s0.links(i, m).push(b));
                lemma_push_no_dup(s0.links(i, m), b);
            } else if i == b && m == l {
                assert(self.links(i, m) == s0.links(i, m).push(a));
                lemma_push_no_dup(s0.links(i, m), a);
            } else {
                assert(self.links(i, m) == s0.links(i, m));
            }
        }
        assert forall|i: int, m: int, j: usize| #[trigger] self.linked(i, m, j) implies {
            &&& (j as int) < self.nodes@.len()
            &&& j as int != i
            &&& self.linked(j as int, m, i as usize)
        } by {
            let la = s0.links(a as int, l as int);
            let lb = s0.links(b as int, l as int);
            assert(self.links(a as int, l as int) == la.push(b));
            assert(self.links(b as int, l as int) == lb.push(a));
            assert(self.links(b as int, l as int)[lb.len() as int] == a);
            if i == a && m == l {
                if j != b {
                    assert(la.contains(j)) by {
                        let k = choose|k: int| 0 <= k < la.len() + 1 && la.push(b)[k] == j;
                        assert(la[k] == j);
                    }
                    assert(s0.linked(i, m, j));
                    if j as int == b as int {
                    } else {
                        assert(self.links(j as int, m) == s0.links(j as int, m));
                    }
                }
            } else if i == b && m == l {
                if j != a {
                    assert(lb.contains(j)) by {
                        let k = choose|k: int| 0 <= k < lb.len() + 1 && lb.push(a)[k] == j;
                        assert(lb[k] == j);
                    }
                    assert(s0.linked(i, m, j));
                    assert(s0.linked(j as int, m, i as usize));
                    if j == a {
                    } else {
                        assert(self.links(j as int, m) == s0.links(j as int, m));
                    }
                }
            } else {
                assert(self.links(i, m) == s0.links(i, m));
                assert(s0.linked(i, m, j));
                assert(s0.linked(j as int, m, i as usize));
                if m == l && (j == a || j == b) {
                    let lj = s0.links(j as int, m);
                    let k = choose|k: int| 0 <= k < lj.len() && lj[k] == i as usize;
                    assert(self.links(j as int, m)[k] == i as usize);
                } else {
                    assert(self.links(j as int, m) == s0.links(j as int, m));
                }
            }
        }
    }

    /// Every node of `s` is at no greater distance from node `a` than node
    /// `x` is, by the kernel's distances; `s` repeats no node and leaves out `x`.
    pub closed spec fn outranked_by<D: Fn(&Vec<u32>, &Vec<u32>) -> u32>(
        &self,
        dist: &D,
        a: int,
        x: int,
        s: Seq<usize>,
    ) -> bool {
        &&& 0 <= a < self.entries@.len()
        &&& 0 <= x < self.entries@.len()
        &&& s.no_duplicates()
        &&& !s.contains(x as usize)
        &&& forall|j: int|
            0 <= j < s.len() ==> {
                &&& (#[trigger] s[j] as int) < self.entries@.len()
                &&& exists|d1: u32, d2: u32|
                    dist.ensures((&self.entries@[a].vector, &self.entries@[s[j] as int].vector), d1) && dist.ensures(
                        (&self.entries@[a].vector, &self.entries@[x].vector),
                        d2,
                    ) && order_key_spec(d1) <= order_key_spec(d2)
            }
    }

    /// Node `a` has `cap` other nodes at no greater distance than node `x`:
    /// the reason a pruning of `a`'s neighbours may drop `x`.
    pub closed spec fn outranked<D: Fn(&Vec<u32>, &Vec<u32>) -> u32>(&self, dist: &D, a: int, x: int, cap: int) -> bool {
        exists|s: Seq<usize>| s.len() == cap && #[trigger] self.outranked_by(dist, a, x, s)
    }

    /// Node `n` is attached to layer `l` through node `nb`: linked to it, or
    /// dropped by it for `cap(l)` nodes at no greater distance.
    pub closed spec fn attach_via<D: Fn(&Vec<u32>, &Vec<u32>) -> u32>(&self, dist: &D, n: int, l: int, nb: usize) -> bool {
        self.linked(n, l, nb) || self.outranked(dist, nb as int, n, self.cap(l))
    }

    /// Node `n` was joined to layer `l`: some node links it, or dropped it
    /// only for `cap(l)` nodes at no greater distance.
    pub closed spec fn attached<D: Fn(&Vec<u32>, &Vec<u32>) -> u32>(&self, dist: &D, n: int, l: int) -> bool {
        exists|nb: usize| #[trigger] self.attach_via(dist, n, l, nb)
    }

    proof fn lemma_attached_frame<D: Fn(&Vec<u32>, &Vec<u32>) -> u32>(x: &Self, y: &Self, dist: &D, n: int, l: int)
        requires
            x.entries@ == y.entries@,
            x.config == y.config,
            forall|v: usize| x.linked(n, l, v) ==> #[trigger] y.linked(n, l, v),
            x.attached(dist, n, l),
        ensures
            y.attached(dist, n, l),
    {
        let nb = choose|nb: usize| #[trigger] x.attach_via(dist, n, l, nb);
        HnswIndex::lemma_attach_frame(x, y, dist, n, l, nb);
    }

    /// Appending an entry keeps every attachment of the earlier nodes.
    proof fn lemma_attached_extend<D: Fn(&Vec<u32>, &Vec<u32>) -> u32>(x: &Self, y: &Self, dist: &D, n: int, l: int)
        requires
            x.entries@.len() <= y.entries@.len(),
            forall|i: int| 0 <= i < x.entries@.len() ==> #[trigger] y.entries@[i] == x.entries@[i],
            x.config == y.config,
            forall|v: usize| x.linked(n, l, v) ==> #[trigger] y.linked(n, l, v),
            x.attached(dist, n, l),
        ensures
            y.attached(dist, n, l),
    {
        let nb = choose|nb: usize| #[trigger] x.attach_via(dist, n, l, nb);
        if x.linked(n, l, nb) {
            assert(y.attach_via(dist, n, l, nb));
        } else {
            let c = x.cap(l);
            let w = choose|w: Seq<usize>| w.len() == c && #[trigger] x.outranked_by(dist, nb as int, n, w);
            assert forall|j: int| 0 <= j < w.len() implies {
                &&& (#[trigger] w[j] as int) < y.entries@.len()
                &&& exists|d1: u32, d2: u32|
                    dist.ensures((&y.entries@[nb as int].vector, &y.entries@[w[j] as int].vector), d1) && dist.ensures(
                        (&y.entries@[nb as int].vector, &y.entries@[n].vector),
                        d2,
                    ) && order_key_spec(d1) <= order_key_spec(d2)
            } by {
                assert(y.entries@[w[j] as int] == x.entries@[w[j] as int]);
                assert(y.entries@[nb as int] == x.entries@[nb as int]);
                assert(y.entries@[n] == x.entries@[n]);
            }
            assert(y.outranked_by(dist, nb as int, n, w));
            assert(y.attach_via(dist, n, l, nb));
        }
    }

    proof fn lemma_outranked_frame<D: Fn(&Vec<u32>, &Vec<u32>) -> u32>(x: &Self, y: &Self, dist: &D, a: int, v: int, c: int)
        requires
            x.entries@ == y.entries@,
            x.outranked(dist, a, v, c),
        ensures
            y.outranked(dist, a, v, c),
    {
        let w = choose|w: Seq<usize>| w.len() == c && #[trigger] x.outranked_by(dist, a, v, w);
        assert(y.outranked_by(dist, a, v, w));
    }

    proof fn lemma_attach_frame<D: Fn(&Vec<u32>, &Vec<u32>) -> u32>(x: &Self, y: &Self, dist: &D, n: int, l: int, nb: usize)
        requires
            x.entries@ == y.entries@,
            x.config == y.config,
            x.linked(n, l, nb) ==> y.linked(n, l, nb),
            x.attach_via(dist, n, l, nb),
        ensures
            y.attach_via(dist, n, l, nb),
    {
        if !x.linked(n, l, nb) {
            let c = x.cap(l);
            let w = choose|w: Seq<usize>| w.len() == c && #[trigger] x.outranked_by(dist, nb as int, n, w);
            assert(y.outranked_by(dist, nb as int, n, w));
            assert(y.cap(l) == c);
        }
    }

    /// If node `a` has more than `cap` neighbours on layer `l`, keeps the `cap`
    /// nearest of them (by distance to `a`'s own vector) and removes the edges
    /// to the others in both directions.
    fn prune<D: Fn(&Vec<u32>, &Vec<u32>) -> u32>(&mut self, a: usize, l: usize, cap: usize, dist: &D)
        requires
            old(self).graph_wf(),
            old(self).has_layer(a as int, l as int),
            kernel_total(dist),
        ensures
            final(self).graph_wf(),
            final(self).same_shape(old(self)),
            final(self).links(a as int, l as int).len() <= cap,
            forall|k: int, m: int|
                #![trigger final(self).links(k, m)]
                old(self).has_layer(k, m) ==> final(self).links(k, m).len() <= old(self).links(k, m).len(),
            forall|k: int, m: int|
                #![trigger final(self).links(k, m)]
                old(self).has_layer(k, m) && m != l ==> final(self).links(k, m) == old(self).links(k, m),
            forall|k: int, m: int, x: usize|
                old(self).linked(k, m, x) && k != a && x != a ==> #[trigger] final(self).linked(k, m, x),
            forall|x: usize|
                old(self).linked(a as int, l as int, x) && !final(self).linked(a as int, l as int, x)
                    ==> #[trigger] old(self).outranked(dist, a as int, x as int, cap as int),
            cap == old(self).cap(l as int) ==> forall|n: int, l2: int|
                old(self).attached(dist, n, l2) ==> #[trigger] final(self).attached(dist, n, l2),
    {
        let len = self.nodes[a].connections[l].len();
        if len <= cap {
            return;
        }
        let ghost s0 = *self;
        let ghost old_a = s0.links(a as int, l as int);
        let ghost list = self.links(a as int, l as int);
        assert(s0.lists_wf() && s0.has_layer(a as int, l as int));
        assert(list.no_duplicates());
        let mut scored: Vec<Candidate> = Vec::new();
        let mut i: usize = 0;
        while i < len
            invariant
                *self == s0,
                s0.graph_wf(),
                s0.has_layer(a as int, l as int),
                list == s0.links(a as int, l as int),
                list.no_duplicates(),
                len == list.len(),
                kernel_total(dist),
                i <= len,
                scored@.len() == i,
                sorted_by_distance(scored@),
                forall|p: int|
                    0 <= p < scored@.len() ==> exists|q: int|
                        0 <= q < i && list[q] == (#[trigger] scored@[p]).node,
                forall|q: int| 0 <= q < i ==> nodes_of(scored@).contains(#[trigger] list[q]),
                nodes_of(scored@).no_duplicates(),
                forall|q: int|
                    0 <= q < scored@.len() ==> (#[trigger] scored@[q]).node < s0.entries@.len() && dist.ensures(
                        (&s0.entries@[a as int].vector, &s0.entries@[scored@[q].node as int].vector),
                        scored@[q].distance,
                    ),
            decreases len - i,
        {
            let c = self.nodes[a].connections[l][i];
            assert(s0.linked(a as int, l as int, c));
            let d = dist(&self.entries[a].vector, &self.entries[c].vector);
            let ghost before = scored@;
            let p = insert_sorted(&mut scored, Candidate { distance: d, node: c });
            proof {
                assert forall|q: int|
                    0 <= q < scored@.len() implies (#[trigger] scored@[q]).node < s0.entries@.len() && dist.ensures(
                    (&s0.entries@[a as int].vector, &s0.entries@[scored@[q].node as int].vector),
                    scored@[q].distance,
                ) by {
                    if q < p {
                        assert(scored@[q] == before[q]);
                    } else if q > p {
                        assert(scored@[q] == before[q - 1]);
                    }
                }
                assert(nodes_of(scored@) =~= nodes_of(before).insert(p as int, c));
                assert forall|k: int| 0 <= k < scored@.len() implies exists|q: int|
                    0 <= q < i + 1 && list[q] == (#[trigger] scored@[k]).node by {
                    if k < p {
                        assert(scored@[k] == before[k]);
                    } else if k == p {
                        assert(list[i as int] == c);
                    } else {
                        assert(scored@[k] == before[k - 1]);
                    }
                }
                assert forall|q: int| 0 <= q < i + 1 implies nodes_of(scored@).contains(#[trigger] list[q]) by {
                    if q == i {
                        assert(nodes_of(scored@)[p as int] == c);
                    } else {
                        let k = choose|k: int| 0 <= k < before.len() && nodes_of(before)[k] == list[q];
                        if k < p {
                            assert(nodes_of(scored@)[k] == list[q]);
                        } else {
                            assert(nodes_of(scored@)[k + 1] == list[q]);
                        }
                    }
                }
                assert forall|x: int, y: int| 0 <= x < y < scored@.len() implies nodes_of(scored@)[x]
                    != nodes_of(scored@)[y] by {
                    if x != p && y != p {
                        let x0 = if x < p { x } else { x - 1 };
                        let y0 = if y < p { y } else { y - 1 };
                        assert(nodes_of(scored@)[x] == nodes_of(before)[x0]);
                        assert(nodes_of(scored@)[y] == nodes_of(before)[y0]);
                    } else {
                        let o = if x == p { y } else { x };
                        let o0 = if o < p { o } else { o - 1 };
                        assert(nodes_of(scored@)[o] == before[o0].node);
                        let q = choose|q: int| 0 <= q < i && list[q] == before[o0].node;
                        assert(list[q] != list[i as int]);
                    }
                }
            }
            i += 1;
        }
        let ghost g = nodes_of(scored@);
        assert forall|x: usize| list.contains(x) <==> g.contains(x) by {
            if list.contains(x) {
                let q = choose|q: int| 0 <= q < list.len() && list[q] == x;
                assert(g.contains(list[q]));
            }
            if g.contains(x) {
                let k = choose|k: int| 0 <= k < g.len() && g[k] == x;
                assert(scored@[k].node == x);
                let q = choose|q: int| 0 <= q < len && list[q] == scored@[k].node;
                assert(list[q] == x);
            }
        }
        let mut keep: Vec<usize> = Vec::new();
        let mut dropped: Vec<usize> = Vec::new();
        let mut k: usize = 0;
        while k < len
            invariant
                k <= len,
                len == scored@.len(),
                g == nodes_of(scored@),
                cap < len,
                k <= cap ==> keep@ == g.subrange(0, k as int) && dropped@.len() == 0,
                k > cap ==> keep@ == g.subrange(0, cap as int) && dropped@ == g.subrange(
                    cap as int,
                    k as int,
                ),
            decreases len - k,
        {
            if k < cap {
                keep.push(scored[k].node);
            } else {
                dropped.push(scored[k].node);
            }
            k += 1;
        }
        assert(keep@ =~= g.subrange(0, cap as int));
        assert(dropped@ =~= g.subrange(cap as int, len as int));
        let ghost kp = keep@;
        let ghost dr = dropped@;
        assert forall|x: usize| list.contains(x) <==> (kp.contains(x) || dr.contains(x)) by {
            if g.contains(x) {
                let q = choose|q: int| 0 <= q < g.len() && g[q] == x;
                if q < cap {
                    assert(kp[q] == x);
                } else {
                    assert(dr[q - cap] == x);
                }
            }
            if kp.contains(x) {
                let q = choose|q: int| 0 <= q < kp.len() && kp[q] == x;
                assert(g[q] == x);
            }
            if dr.contains(x) {
                let q = choose|q: int| 0 <= q < dr.len() && dr[q] == x;
                assert(g[q + cap] == x);
            }
        }
        assert forall|x: usize| kp.contains(x) implies !dr.contains(x) by {
            if kp.contains(x) && dr.contains(x) {
                let q = choose|q: int| 0 <= q < kp.len() && kp[q] == x;
                let r = choose|r: int| 0 <= r < dr.len() && dr[r] == x;
                assert(g[q] == g[r + cap]);
            }
        }
        assert(kp.no_duplicates()) by {
            assert forall|x: int, y: int| 0 <= x < y < kp.len() implies kp[x] != kp[y] by {
                assert(kp[x] == g[x] && kp[y] == g[y]);
            }
        }
        assert(dr.no_duplicates()) by {
            assert forall|x: int, y: int| 0 <= x < y < dr.len() implies dr[x] != dr[y] by {
                assert(dr[x] == g[x + cap] && dr[y] == g[y + cap]);
            }
        }
        proof {
            assert(kp.len() == cap);
            assert forall|x: usize| dr.contains(x) implies s0.outranked(dist, a as int, x as int, cap as int) by {
                let t = choose|t: int| 0 <= t < dr.len() && dr[t] == x;
                let q = t + cap;
                assert(g[q] == x);
                assert(scored@[q].node == x);
                assert(!kp.contains(x));
                assert forall|j: int| 0 <= j < kp.len() implies {
                    &&& (#[trigger] kp[j] as int) < s0.entries@.len()
                    &&& exists|d1: u32, d2: u32|
                        dist.ensures((&s0.entries@[a as int].vector, &s0.entries@[kp[j] as int].vector), d1)
                            && dist.ensures((&s0.entries@[a as int].vector, &s0.entries@[x as int].vector), d2)
                            && order_key_spec(d1) <= order_key_spec(d2)
                } by {
                    assert(kp[j] == g[j]);
                    assert(g[j] == scored@[j].node);
                    let d1 = scored@[j].distance;
                    let d2 = scored@[q].distance;
                    assert(order_key_spec(d1) <= order_key_spec(d2));
                    assert(dist.ensures((&s0.entries@[a as int].vector, &s0.entries@[kp[j] as int].vector), d1));
                    assert(dist.ensures((&s0.entries@[a as int].vector, &s0.entries@[x as int].vector), d2));
                }
                assert(s0.outranked_by(dist, a as int, x as int, kp));
            }
        }
        self.set_list(a, l, keep);
        let ghost s1 = *self;
        assert forall|k: int, m: int, x: usize| s0.linked(k, m, x) && k != a && x != a implies #[trigger] s1.linked(k, m, x) by {
            assert(s1.links(k, m) == s0.links(k, m));
        }
        assert(s1.lists_wf()) by {
            assert forall|i: int, m: int| #[trigger] s1.has_layer(i, m) implies s1.links(i, m).no_duplicates() by {
                assert(s0.has_layer(i, m));
            }
        }
        assert(s1.edges_ok(l as int, a, suffix_set(dr, 0))) by {
            assert forall|i: int, m: int, j: usize| #[trigger] s1.linked(i, m, j) implies {
                &&& (j as int) < s1.nodes@.len()
                &&& j as int != i
                &&& (s1.linked(j as int, m, i as usize) || (m == l && j == a && suffix_set(dr, 0).contains(i as usize)))
            } by {
                assert(s0.has_layer(i, m));
                if i == a && m == l {
                    assert(kp.contains(j));
                    assert(s0.linked(i, m, j));
                    assert(s0.linked(j as int, m, i as usize));
                    assert(s1.links(j as int, m) == s0.links(j as int, m));
                } else {
                    assert(s1.links(i, m) == s0.links(i, m));
                    assert(s0.linked(i, m, j));
                    assert(s0.linked(j as int, m, i as usize));
                    if j == a && m == l {
                        if !kp.contains(i as usize) {
                            assert(dr.subrange(0, dr.len() as int) =~= dr);
                        }
                    } else {
                        assert(s1.links(j as int, m) == s0.links(j as int, m));
                    }
                }
            }
        }
        assert(!dr.contains(a)) by {
            if list.contains(a) {
                assert(s0.linked(a as int, l as int, a));
            }
        }
        let dlen = dropped.len();
        let mut t: usize = 0;
        while t < dlen
            invariant
                t <= dlen,
                dlen == dr.len(),
                dropped@ == dr,
                dr.no_duplicates(),
                forall|x: usize| list.contains(x) <==> (kp.contains(x) || dr.contains(x)),
                forall|x: usize| kp.contains(x) ==> !dr.contains(x),
                !dr.contains(a),
                s0.graph_wf(),
                s0.has_layer(a as int, l as int),
                list == s0.links(a as int, l as int),
                self.shape_wf(),
                self.lists_wf(),
                self.same_shape(&s0),
                self.links(a as int, l as int) == kp,
                kp.len() == cap,
                self.edges_ok(l as int, a, suffix_set(dr, t as int)),
                forall|k: int, m: int, x: usize| s0.linked(k, m, x) && k != a && x != a ==> #[trigger] self.linked(k, m, x),
                forall|x: usize| dr.contains(x) ==> #[trigger] s0.outranked(dist, a as int, x as int, cap as int),
                forall|k: int, m: int|
                    #![trigger self.links(k, m)]
                    s0.has_layer(k, m) ==> self.links(k, m).len() <= s0.links(k, m).len(),
                forall|k: int, m: int|
                    #![trigger self.links(k, m)]
                    s0.has_layer(k, m) && m != l ==> self.links(k, m) == s0.links(k, m),
            decreases dlen - t,
        {
            let c = dropped[t];
            assert(dr.contains(c));
            assert(list.contains(c));
            assert(s0.linked(a as int, l as int, c));
            assert(s0.linked(c as int, l as int, a));
            assert(self.has_layer(c as int, l as int));
            let ghost s2 = *self;
            self.unlink_one_side(c, l, a);
            proof {
                assert forall|k: int, m: int, x: usize| s0.linked(k, m, x) && k != a && x != a implies #[trigger] self.linked(k, m, x) by {
                    assert(s2.linked(k, m, x));
                    assert(s2.has_layer(k, m));
                    if !(k == c && m == l) {
                        assert(self.links(k, m) == s2.links(k, m));
                    }
                }
                assert forall|i: int, m: int| #[trigger] self.has_layer(i, m) implies self.links(i, m).no_duplicates() by {
                    assert(s2.has_layer(i, m));
                }
                assert(suffix_set(dr, t as int + 1) =~= suffix_set(dr, t as int).remove(c)) by {
                    assert forall|x: usize| suffix_set(dr, t as int).contains(x) && x != c implies suffix_set(dr, t as int + 1).contains(x) by {
                        let ss = dr.subrange(t as int, dlen as int);
                        let q = choose|q: int| 0 <= q < ss.len() && ss[q] == x;
                        assert(q != 0);
                        assert(dr.subrange(t as int + 1, dlen as int)[q - 1] == x);
                    }
                    assert forall|x: usize| suffix_set(dr, t as int + 1).contains(x) implies suffix_set(dr, t as int).contains(x) && x != c by {
                        let ss = dr.subrange(t as int + 1, dlen as int);
                        let q = choose|q: int| 0 <= q < ss.len() && ss[q] == x;
                        assert(dr.subrange(t as int, dlen as int)[q + 1] == x);
                        assert(dr[t as int] == c);
                    }
                }
                assert forall|i: int, m: int, j: usize| #[trigger] self.linked(i, m, j) implies {
                    &&& (j as int) < self.nodes@.len()
                    &&& j as int != i
                    &&& (self.linked(j as int, m, i as usize) || (m == l && j == a && suffix_set(dr, t as int + 1).contains(i as usize)))
                } by {
                    assert(s2.has_layer(i, m));
                    if i == c && m == l {
                        assert(s2.linked(i, m, j));
                        assert(j != a);
                        assert(s2.linked(j as int, m, i as usize));
                        assert(self.links(j as int, m) == s2.links(j as int, m));
                    } else {
                        assert(self.links(i, m) == s2.links(i, m));
                        assert(s2.linked(i, m, j));
                        if !s2.linked(j as int, m, i as usize) {
                            assert(m == l);
                            assert(i != c as int);
                            assert(s2.nodes@.len() == s2.nodes.len());
                            assert(suffix_set(dr, t as int).contains(i as usize));
                            assert(i as usize != c);
                            assert(suffix_set(dr, t as int + 1).contains(i as usize));
                        }
                        if s2.linked(j as int, m, i as usize) {
                            if j == c && m == l {
                                if i == a {
                                    assert(!kp.contains(c));
                                    assert(false);
                                }
                                assert(s2.links(c as int, l as int).contains(i as usize));
                                assert(s2.nodes@.len() == s2.nodes.len());
                                assert(i as usize != a);
                                assert(self.links(c as int, l as int).contains(i as usize));
                            } else {
                                assert(self.links(j as int, m) == s2.links(j as int, m));
                            }
                        }
                    }
                }
            }
            t += 1;
        }
        proof {
            assert forall|x: usize| s0.linked(a as int, l as int, x) && !self.linked(a as int, l as int, x) implies #[trigger] s0.outranked(dist, a as int, x as int, cap as int) by {
                assert(list.contains(x));
                assert(!kp.contains(x));
            }
            if cap == s0.cap(l as int) {
                assert forall|n: int, l2: int| s0.attached(dist, n, l2) implies #[trigger] self.attached(dist, n, l2) by {
                    let nb = choose|nb: usize| #[trigger] s0.attach_via(dist, n, l2, nb);
                    if s0.linked(n, l2, nb) {
                        if self.linked(n, l2, nb) {
                            assert(self.attach_via(dist, n, l2, nb));
                        } else {
                            assert(l2 == l);
                            if cap == 0 {
                                assert(self.outranked_by(dist, nb as int, n, Seq::<usize>::empty()));
                                assert(self.attach_via(dist, n, l2, nb));
                            } else if n == a as int {
                                assert(kp.len() == cap);
                                assert(self.links(a as int, l as int)[0] == kp[0]);
                                assert(self.linked(n, l2, kp[0]));
                                assert(self.attach_via(dist, n, l2, kp[0]));
                            } else {
                                assert(nb == a);
                                assert(s0.nodes@.len() == s0.nodes.len());
                                assert((n as usize) as int == n);
                                assert(s0.linked(a as int, l as int, n as usize));
                                if self.linked(a as int, l as int, n as usize) {
                                    assert(self.linked(n, l as int, a));
                                }
                                assert(!self.linked(a as int, l as int, n as usize));
                                assert(s0.outranked(dist, a as int, n, cap as int));
                                HnswIndex::lemma_outranked_frame(&s0, self, dist, a as int, n, cap as int);
                                assert(self.attach_via(dist, n, l2, nb));
                            }
                        }
                    } else {
                        HnswIndex::lemma_outranked_frame(&s0, self, dist, nb as int, n, s0.cap(l2));
                        assert(self.attach_via(dist, n, l2, nb));
                    }
                }
            }
            assert(suffix_set(dr, dlen as int) =~= Set::empty());
            assert forall|i: int, m: int, j: usize| #[trigger] self.linked(i, m, j) implies {
                &&& (j as int) < self.nodes@.len()
                &&& j as int != i
                &&& (self.linked(j as int, m, i as usize) || (m == 0 && j == 0 && Set::<usize>::empty().contains(i as usize)))
            } by {
                assert(self.edges_ok(l as int, a, suffix_set(dr, dlen as int)));
            }
        }
    }

    /// Position of the entry whose identifier is `id`, if any.
    pub closed spec fn lookup(&self, id: Seq<char>) -> Option<int> {
        if exists|i: int| 0 <= i < self.entries@.len() && #[trigger] self.entries@[i].id@ == id {
            Some(choose|i: int| 0 <= i < self.entries@.len() && #[trigger] self.entries@[i].id@ == id)
        } else {
            None
        }
    }

    /// What `get` answers for `id`: the stored vector and metadata of a live
    /// entry, nothing for an absent or deleted one.
    pub closed spec fn visible(&self, id: Seq<char>) -> Option<(Seq<u32>, Option<String>)> {
        match self.lookup(id) {
            Some(i) => if self.entries@[i].deleted {
                None
            } else {
                Some((self.entries@[i].vector@, self.entries@[i].metadata))
            },
            None => None,
        }
    }

    /// Whether an entry with identifier `id` is stored and soft-deleted.
    pub closed spec fn is_deleted(&self, id: Seq<char>) -> bool {
        match self.lookup(id) {
            Some(i) => self.entries@[i].deleted,
            None => false,
        }
    }

    proof fn lemma_lookup_at(&self, i: int)
        requires
            self.entries_wf(),
            0 <= i < self.entries@.len(),
        ensures
            self.lookup(self.entries@[i].id@) == Some(i),
    {
        let id = self.entries@[i].id@;
        assert(self.entries@[i].id@ == id);
        let k = choose|k: int| 0 <= k < self.entries@.len() && #[trigger] self.entries@[k].id@ == id;
        if k < i {
            assert(self.entries@[k].id@ != self.entries@[i].id@);
        } else if k > i {
            assert(self.entries@[i].id@ != self.entries@[k].id@);
        }
    }

    /// The graph invariant depends on the nodes and the number of entries only.
    proof fn lemma_graph_frame(&self, other: &Self)
        requires
            self.graph_wf(),
            self.caps_hold(),
            other.nodes == self.nodes,
            other.config == self.config,
            other.entries@.len() == self.entries@.len(),
        ensures
            other.graph_wf(),
            other.caps_hold(),
    {
        assert forall|i: int, l: int| #[trigger] other.has_layer(i, l) implies other.links(i, l).no_duplicates()
            && other.links(i, l).len() <= other.cap(l) by {
            assert(self.has_layer(i, l));
        }
        assert forall|i: int, m: int, j: usize| #[trigger] other.linked(i, m, j) implies {
            &&& (j as int) < other.nodes@.len()
            &&& j as int != i
            &&& (other.linked(j as int, m, i as usize) || (m == 0 && j == 0 && Set::<usize>::empty().contains(i as usize)))
        } by {
            assert(self.linked(i, m, j));
        }
    }

    proof fn lemma_lookup_some(&self, id: Seq<char>)
        ensures
            self.lookup(id) matches Some(k) ==> 0 <= k < self.entries@.len() && self.entries@[k].id@ == id,
            self.lookup(id) is None ==> forall|k: int| 0 <= k < self.entries@.len() ==> (#[trigger] self.entries@[k]).id@ != id,
    {
    }

    /// An empty index with the default parameters.
    pub fn new(dimension: usize, metric: DistanceMetric) -> (r: HnswIndex)
        ensures
            r.wf(),
            r.count() == 0,
            r.spec_dimension() == dimension,
            r.spec_metric() == metric,
            r.spec_config() == (HnswConfig { max_connections: 16, max_connections_layer0: 32, ef_construction: 200, ef_search: 100 }),
    {
        HnswIndex::with_config(dimension, metric, HnswConfig::balanced())
    }

    /// An empty index with the given parameters.
    pub fn with_config(dimension: usize, metric: DistanceMetric, config: HnswConfig) -> (r: HnswIndex)
        ensures
            r.wf(),
            r.count() == 0,
            r.spec_dimension() == dimension,
            r.spec_metric() == metric,
            r.spec_config() == config,
    {
        let r = HnswIndex {
            config,
            metric,
            dimension,
            entry_point: None,
            nodes: Vec::new(),
            entries: Vec::new(),
            by_hash: HashMap::new(),
        };
        r
    }

    /// Number of stored entries, soft-deleted ones included.
    pub fn len(&self) -> (r: usize)
        ensures
            r == self.count(),
    {
        self.entries.len()
    }

    /// Whether nothing is stored.
    pub fn is_empty(&self) -> (r: bool)
        ensures
            r == (self.count() == 0),
    {
        self.entries.len() == 0
    }

    /// The dimension every vector must have.
    pub fn dimension(&self) -> (r: usize)
        ensures
            r == self.spec_dimension(),
    {
        self.dimension
    }

    /// The distance metric.
    pub fn metric(&self) -> (r: DistanceMetric)
        ensures
            r == self.spec_metric(),
    {
        self.metric
    }

    /// The build and search parameters.
    pub fn config(&self) -> (r: HnswConfig)
        ensures
            r == self.spec_config(),
    {
        self.config
    }

    /// Position of the entry with identifier `id`: only the entries listed
    /// under the identifier's hash are compared.
    fn find(&self, id: &str) -> (r: Option<usize>)
        requires
            self.entries_wf(),
            self.ids_indexed(),
        ensures
            r matches Some(i) ==> (i as int) < self.entries@.len() && self.lookup(id@) == Some(i as int),
            r is None ==> self.lookup(id@) is None,
    {
        let key = id.to_owned();
        let h = hash_key(id);
        match self.by_hash.get(&h) {
            None => {
                assert forall|k: int| 0 <= k < self.entries@.len() implies (#[trigger] self.entries@[k]).id@ != id@ by {
                    assert(self.by_hash@.contains_key(stable_hash(self.entries@[k].id@)));
                }
                assert(self.lookup(id@) is None);
                None
            },
            Some(bucket) => {
                let mut p: usize = 0;
                while p < bucket.len()
                    invariant
                        self.entries_wf(),
                        self.ids_indexed(),
                        self.by_hash@.contains_key(h),
                        bucket@ == self.by_hash@[h]@,
                        h == stable_hash(id@),
                        key@ == id@,
                        p <= bucket@.len(),
                        forall|q: int| 0 <= q < p ==> self.entries@[#[trigger] bucket@[q] as int].id@ != id@,
                    decreases bucket@.len() - p,
                {
                    let idx = bucket[p];
                    assert((idx as int) < self.entries@.len()) by {
                        assert(self.by_hash@[h]@[p as int] == idx);
                    }
                    if self.entries[idx].id == key {
                        proof {
                            self.lemma_lookup_at(idx as int);
                        }
                        return Some(idx);
                    }
                    p += 1;
                }
                assert forall|k: int| 0 <= k < self.entries@.len() implies (#[trigger] self.entries@[k]).id@ != id@ by {
                    if self.entries@[k].id@ == id@ {
                        assert(self.entries@.len() == self.entries.len());
                        assert((k as usize) as int == k);
                        assert(stable_hash(self.entries@[k].id@) == h);
                        assert(self.by_hash@[stable_hash(self.entries@[k].id@)]@.contains(k as usize));
                        assert(bucket@.contains(k as usize));
                        let q = choose|q: int| 0 <= q < bucket@.len() && bucket@[q] == k as usize;
                        assert(self.entries@[bucket@[q] as int].id@ != id@);
                    }
                }
                assert(self.lookup(id@) is None);
                None
            },
        }
    }

    /// Whether an entry with identifier `id` is stored, soft-deleted or not.
    pub fn holds(&self, id: &str) -> (r: bool)
        requires
            self.wf(),
        ensures
            r == (self.lookup(id@) is Some),
            r == self.ids().contains(id@),
    {
        self.find(id).is_some()
    }

    /// The stored vector and metadata of `id`; `None` when it is absent or
    /// soft-deleted.
    pub fn get(&self, id: &str) -> (r: Option<(Vec<u32>, Option<String>)>)
        requires
            self.wf(),
        ensures
            r matches Some(p) ==> self.visible(id@) == Some((p.0@, p.1)),
            r is None ==> self.visible(id@) is None,
    {
        match self.find(id) {
            Some(i) => {
                let e = &self.entries[i];
                if e.deleted {
                    None
                } else {
                    Some((copy_bits(&e.vector), copy_text(&e.metadata)))
                }
            },
            None => None,
        }
    }

    /// Whether `id` is stored and not soft-deleted.
    pub fn contains(&self, id: &str) -> (r: bool)
        requires
            self.wf(),
        ensures
            r == (self.visible(id@) is Some),
    {
        match self.find(id) {
            Some(i) => !self.entries[i].deleted,
            None => false,
        }
    }

    /// Sets the soft-delete flag of `id`: `Ok(true)` when it was live,
    /// `Ok(false)` when it was deleted already, `NotFound` when absent. The
    /// graph is left as it is.
    pub fn soft_delete(&mut self, id: &str) -> (r: Result<bool, VectorError>)
        requires
            old(self).wf(),
        ensures
            final(self).wf(),
            final(self).count() == old(self).count(),
            final(self).spec_dimension() == old(self).spec_dimension(),
            final(self).spec_metric() == old(self).spec_metric(),
            final(self).spec_config() == old(self).spec_config(),
            final(self).entry_level() == old(self).entry_level(),
            forall|k: int| 0 <= k < old(self).count() ==> #[trigger] final(self).level_of(k) == old(self).level_of(k),
            forall|k: int, l: int|
                #![trigger final(self).links(k, l)]
                old(self).has_layer(k, l) ==> final(self).has_layer(k, l) && final(self).links(k, l) == old(self).links(k, l),
            forall|k: int|
                0 <= k < old(self).count() && old(self).entry(k).id@ != id@ ==> #[trigger] final(self).entry(k)
                    == old(self).entry(k),
            forall|k: int|
                0 <= k < old(self).count() && old(self).entry(k).id@ == id@ ==> #[trigger] final(self).entry(k)
                    == (VectorEntry { deleted: true, ..old(self).entry(k) }),
            old(self).lookup(id@) is None ==> r == Err::<bool, VectorError>(VectorError::NotFound)
                && *final(self) == *old(self),
            old(self).lookup(id@) is Some ==> r == Ok::<bool, VectorError>(!old(self).is_deleted(id@)),
            old(self).lookup(id@) is Some ==> final(self).is_deleted(id@),
            forall|other: Seq<char>| other != id@ ==> #[trigger] final(self).visible(other) == old(self).visible(other),
            forall|i: int| 0 <= i < old(self).count() ==> (#[trigger] final(self).entry(i)).id@ == old(self).entry(i).id@,
    {
        self.set_deleted(id, true)
    }

    /// Clears the soft-delete flag of `id`: `Ok(true)` when it was deleted,
    /// `Ok(false)` when it was live already, `NotFound` when absent.
    pub fn undelete(&mut self, id: &str) -> (r: Result<bool, VectorError>)
        requires
            old(self).wf(),
        ensures
            final(self).wf(),
            final(self).count() == old(self).count(),
            final(self).spec_dimension() == old(self).spec_dimension(),
            final(self).spec_metric() == old(self).spec_metric(),
            final(self).spec_config() == old(self).spec_config(),
            final(self).entry_level() == old(self).entry_level(),
            forall|k: int| 0 <= k < old(self).count() ==> #[trigger] final(self).level_of(k) == old(self).level_of(k),
            forall|k: int, l: int|
                #![trigger final(self).links(k, l)]
                old(self).has_layer(k, l) ==> final(self).has_layer(k, l) && final(self).links(k, l) == old(self).links(k, l),
            forall|k: int|
                0 <= k < old(self).count() && old(self).entry(k).id@ != id@ ==> #[trigger] final(self).entry(k)
                    == old(self).entry(k),
            forall|k: int|
                0 <= k < old(self).count() && old(self).entry(k).id@ == id@ ==> #[trigger] final(self).entry(k)
                    == (VectorEntry { deleted: false, ..old(self).entry(k) }),
            old(self).lookup(id@) is None ==> r == Err::<bool, VectorError>(VectorError::NotFound)
                && *final(self) == *old(self),
            old(self).lookup(id@) is Some ==> r == Ok::<bool, VectorError>(old(self).is_deleted(id@)),
            old(self).lookup(id@) is Some ==> !final(self).is_deleted(id@),
            forall|other: Seq<char>| other != id@ ==> #[trigger] final(self).visible(other) == old(self).visible(other),
            forall|i: int| 0 <= i < old(self).count() ==> (#[trigger] final(self).entry(i)).id@ == old(self).entry(i).id@,
    {
        self.set_deleted(id, false)
    }

    fn set_deleted(&mut self, id: &str, flag: bool) -> (r: Result<bool, VectorError>)
        requires
            old(self).wf(),
        ensures
            final(self).wf(),
            forall|other: Seq<char>| #[trigger] final(self).lookup(other) == old(self).lookup(other),
            forall|other: Seq<char>| other != id@ ==> #[trigger] final(self).is_deleted(other) == old(self).is_deleted(other),
            final(self).nodes@ == old(self).nodes@,
            final(self).entry_point == old(self).entry_point,
            final(self).count() == old(self).count(),
            final(self).spec_dimension() == old(self).spec_dimension(),
            final(self).spec_metric() == old(self).spec_metric(),
            final(self).spec_config() == old(self).spec_config(),
            final(self).entry_level() == old(self).entry_level(),
            forall|k: int| 0 <= k < old(self).count() ==> #[trigger] final(self).level_of(k) == old(self).level_of(k),
            forall|k: int, l: int|
                #![trigger final(self).links(k, l)]
                old(self).has_layer(k, l) ==> final(self).has_layer(k, l) && final(self).links(k, l) == old(self).links(k, l),
            forall|k: int|
                0 <= k < old(self).count() && old(self).entry(k).id@ != id@ ==> #[trigger] final(self).entry(k)
                    == old(self).entry(k),
            forall|k: int|
                0 <= k < old(self).count() && old(self).entry(k).id@ == id@ ==> #[trigger] final(self).entry(k)
                    == (VectorEntry { deleted: flag, ..old(self).entry(k) }),
            old(self).lookup(id@) is None ==> r == Err::<bool, VectorError>(VectorError::NotFound)
                && *final(self) == *old(self),
            old(self).lookup(id@) is Some ==> r == Ok::<bool, VectorError>(old(self).is_deleted(id@) != flag),
            old(self).lookup(id@) is Some ==> final(self).is_deleted(id@) == flag,
            forall|other: Seq<char>| other != id@ ==> #[trigger] final(self).visible(other) == old(self).visible(other),
            forall|i: int| 0 <= i < old(self).count() ==> (#[trigger] final(self).entry(i)).id@ == old(self).entry(i).id@,
    {
        match self.find(id) {
            None => Err(VectorError::NotFound),
            Some(i) => {
                let ghost s0 = *self;
                let was = self.entries[i].deleted;
                self.entries[i].deleted = flag;
                assert forall|k: int| 0 <= k < self.entries@.len() implies (#[trigger] self.entries@[k]).id@ == s0.entries@[k].id@
                    && self.entries@[k].vector@ == s0.entries@[k].vector@
                    && self.entries@[k].metadata == s0.entries@[k].metadata by {
                }
                assert(self.entries_wf());
                assert(self.by_hash@ == s0.by_hash@);
                assert(self.ids_indexed());
                assert forall|other: Seq<char>| #[trigger] self.lookup(other) == s0.lookup(other) by {
                    if exists|k: int| 0 <= k < s0.entries@.len() && #[trigger] s0.entries@[k].id@ == other {
                        let k = choose|k: int| 0 <= k < s0.entries@.len() && #[trigger] s0.entries@[k].id@ == other;
                        s0.lemma_lookup_at(k);
                        self.lemma_lookup_at(k);
                    } else {
                        assert forall|k: int| 0 <= k < self.entries@.len() implies #[trigger] self.entries@[k].id@ != other by {
                            assert(s0.entries@[k].id@ != other);
                        }
                    }
                }
                proof {
                    s0.lemma_lookup_at(i as int);
                    s0.lemma_lookup_some(id@);
                }
                assert forall|other: Seq<char>| other != id@ implies #[trigger] self.visible(other) == s0.visible(other) by {
                    assert(self.lookup(other) == s0.lookup(other));
                    s0.lemma_lookup_some(other);
                    if let Some(k) = s0.lookup(other) {
                        assert(k != i as int);
                    }
                }
                proof {
                    assert forall|other: Seq<char>| other != id@ implies #[trigger] self.is_deleted(other)
                        == s0.is_deleted(other) by {
                        assert(self.lookup(other) == s0.lookup(other));
                        s0.lemma_lookup_some(other);
                    }
                    s0.lemma_graph_frame(self);
                    assert forall|k: int|
                        0 <= k < s0.count() && s0.entry(k).id@ == id@ implies #[trigger] self.entry(k)
                            == (VectorEntry { deleted: flag, ..s0.entry(k) }) by {
                        if k != i as int {
                            assert(s0.entries@[k].id@ != s0.entries@[i as int].id@) by {
                                if k < i as int {
                                } else {
                                }
                            }
                        }
                    }
                }
                Ok(was != flag)
            },
        }
    }

    /// The first `m` candidates other than node `skip`: with the candidates in
    /// ascending order of distance, the `m` nearest.
    fn select_neighbors<D: Fn(&Vec<u32>, &Vec<u32>) -> u32>(
        &self,
        cands: &Vec<Candidate>,
        m: usize,
        skip: usize,
        q: &Vec<u32>,
        layer: usize,
        dist: &D,
    ) -> (r: Vec<usize>)
        requires
            distinct_nodes(cands@),
            forall|i: int| 0 <= i < cands@.len() ==> self.scored(q, layer as int, dist, #[trigger] cands@[i]),
        ensures
            r@.len() <= m,
            r@.no_duplicates(),
            cands@.len() > 0 && m > 0 && cands@[0].node != skip ==> r@.len() > 0,
            forall|i: int|
                0 <= i < r@.len() ==> {
                    &&& (#[trigger] r@[i] as int) < self.nodes@.len()
                    &&& r@[i] != skip
                    &&& self.nodes@[r@[i] as int].level >= layer
                },
    {
        let mut r: Vec<usize> = Vec::new();
        let mut i: usize = 0;
        while i < cands.len() && r.len() < m
            invariant
                i <= cands@.len(),
                r@.len() <= m,
                distinct_nodes(cands@),
                forall|k: int| 0 <= k < cands@.len() ==> self.scored(q, layer as int, dist, #[trigger] cands@[k]),
                forall|p: int| 0 <= p < r@.len() ==> exists|k: int| 0 <= k < i && cands@[k].node == #[trigger] r@[p],
                r@.no_duplicates(),
                i > 0 && m > 0 && cands@[0].node != skip ==> r@.len() > 0,
                forall|p: int|
                    0 <= p < r@.len() ==> {
                        &&& (#[trigger] r@[p] as int) < self.nodes@.len()
                        &&& r@[p] != skip
                        &&& self.nodes@[r@[p] as int].level >= layer
                    },
            decreases cands@.len() - i,
        {
            let c = cands[i].node;
            if c != skip {
                proof {
                    assert forall|p: int| 0 <= p < r@.len() implies r@[p] != c by {
                        let k = choose|k: int| 0 <= k < i && cands@[k].node == r@[p];
                        assert(cands@[k].node != cands@[i as int].node);
                    }
                    lemma_push_no_dup(r@, c);
                }
                r.push(c);
            }
            i += 1;
        }
        r
    }

    /// Adds an entry. The vector must have the index's dimension and the
    /// identifier must be new; under cosine the normalised vector is stored.
    /// `level` is the layer drawn for the node, capped at `MAX_LEVEL`. The node
    /// is linked, layer by layer from the top, to the nearest nodes a search
    /// finds, and every neighbour left with more than its cap keeps only its
    /// nearest ones.
    pub fn insert<D: Fn(&Vec<u32>, &Vec<u32>) -> u32, N: Fn(&Vec<u32>) -> Vec<u32>>(
        &mut self,
        id: String,
        vector: Vec<u32>,
        metadata: Option<String>,
        level: usize,
        dist: &D,
        normalize: &N,
    ) -> (r: Result<(), VectorError>)
        requires
            old(self).wf(),
            kernel_total(dist),
            normalizer_ok(normalize),
        ensures
            final(self).wf(),
            final(self).spec_dimension() == old(self).spec_dimension(),
            final(self).spec_metric() == old(self).spec_metric(),
            final(self).spec_config() == old(self).spec_config(),
            vector@.len() != old(self).spec_dimension() ==> r == Err::<(), VectorError>(
                VectorError::DimensionMismatch { expected: old(self).spec_dimension(), actual: vector@.len() as usize },
            ) && *final(self) == *old(self),
            vector@.len() == old(self).spec_dimension() && old(self).lookup(id@) is Some ==> r == Err::<(), VectorError>(
                VectorError::AlreadyExists,
            ) && *final(self) == *old(self),
            vector@.len() == old(self).spec_dimension() && old(self).lookup(id@) is None ==> r is Ok
                && HnswIndex::inserted(old(self), final(self), id@, &vector, metadata, level, normalize),
            forall|n: int, l: int|
                0 <= n < old(self).count() && old(self).attached(dist, n, l) ==> #[trigger] final(self).attached(dist, n, l),
            r is Ok && old(self).count() > 0 ==> forall|l: int|
                0 <= l <= (if level > MAX_LEVEL { MAX_LEVEL } else { level }) && l <= old(self).entry_level()
                    && final(self).cap(l) >= 1 ==> #[trigger] final(self).attached(dist, old(self).count(), l),
    {
        if vector.len() != self.dimension {
            return Err(VectorError::DimensionMismatch { expected: self.dimension, actual: vector.len() });
        }
        if self.find(id.as_str()).is_some() {
            return Err(VectorError::AlreadyExists);
        }
        let ghost s0 = *self;
        proof {
            s0.lemma_lookup_some(id@);
        }
        let stored = match self.metric {
            DistanceMetric::Cosine => normalize(&vector),
            _ => vector,
        };
        let level = if level > MAX_LEVEL { MAX_LEVEL } else { level };
        let new = self.entries.len();
        let h = hash_key(id.as_str());
        self.entries.push(VectorEntry { id, vector: stored, metadata, deleted: false });
        self.nodes.push(HnswNode::new(level));
        let ghost before_bucket = self.by_hash@;
        let mut bucket = match self.by_hash.remove(&h) {
            Some(b) => b,
            None => Vec::new(),
        };
        let ghost old_bucket = bucket@;
        assert(before_bucket.contains_key(h) ==> old_bucket == before_bucket[h]@);
        assert(!before_bucket.contains_key(h) ==> old_bucket.len() == 0);
        bucket.push(new);
        self.by_hash.insert(h, bucket);
        proof {
            assert(self.by_hash@ == before_bucket.insert(h, bucket));
            assert forall|i: int| 0 <= i < self.entries@.len() implies {
                &&& self.by_hash@.contains_key(stable_hash((#[trigger] self.entries@[i]).id@))
                &&& self.by_hash@[stable_hash(self.entries@[i].id@)]@.contains(i as usize)
            } by {
                if i == new as int {
                    assert(self.by_hash@[h]@[old_bucket.len() as int] == new);
                } else {
                    assert(s0.entries@[i] == self.entries@[i]);
                    let hi = stable_hash(self.entries@[i].id@);
                    assert(s0.by_hash@.contains_key(hi) && s0.by_hash@[hi]@.contains(i as usize));
                    if hi == h {
                        let q = choose|q: int| 0 <= q < old_bucket.len() && old_bucket[q] == i as usize;
                        assert(self.by_hash@[h]@[q] == i as usize);
                    }
                }
            }
            assert forall|hh: u64, j: int|
                #![trigger self.by_hash@[hh]@[j]]
                self.by_hash@.contains_key(hh) && 0 <= j < self.by_hash@[hh]@.len() implies (self.by_hash@[hh]@[j] as int)
                    < self.entries@.len() by {
                if hh == h {
                    if j < old_bucket.len() {
                        assert(self.by_hash@[hh]@[j] == before_bucket[h]@[j]);
                    }
                } else {
                    assert(self.by_hash@[hh] == s0.by_hash@[hh]);
                }
            }
        }
        let ghost s1 = *self;
        proof {
            assert forall|i: int| 0 <= i < s0.entries@.len() implies #[trigger] s1.entry(i) == s0.entry(i) by {}
            assert(s1.entries_wf()) by {
                assert forall|i: int, j: int| 0 <= i < j < s1.entries@.len() implies (#[trigger] s1.entries@[i]).id@
                    != (#[trigger] s1.entries@[j]).id@ by {
                    if j == new as int {
                        assert(s0.entries@[i].id@ != s1.entries@[j].id@);
                    }
                }
            }
            assert(s1.shape_wf());
            assert forall|i: int, l: int| #[trigger] s1.has_layer(i, l) implies s1.links(i, l).no_duplicates()
                && s1.links(i, l).len() <= s1.cap(l) by {
                if i < new {
                    assert(s0.has_layer(i, l));
                    assert(s1.links(i, l) == s0.links(i, l));
                } else {
                    assert(s1.links(i, l).len() == 0);
                }
            }
            assert forall|i: int, m: int, j: usize| #[trigger] s1.linked(i, m, j) implies {
                &&& (j as int) < s1.nodes@.len()
                &&& j as int != i
                &&& (s1.linked(j as int, m, i as usize) || (m == 0 && j == 0 && Set::<usize>::empty().contains(i as usize)))
            } by {
                if i < new {
                    assert(s1.links(i, m) == s0.links(i, m));
                    assert(s0.linked(i, m, j));
                    assert(s0.linked(j as int, m, i as usize));
                    assert(s1.links(j as int, m) == s0.links(j as int, m));
                } else {
                    assert(s1.links(i, m).len() == 0);
                }
            }
            assert(s1.graph_wf());
            assert(s1.caps_hold());
            assert forall|n: int, l2: int| 0 <= n < s0.count() && s0.attached(dist, n, l2) implies #[trigger] s1.attached(dist, n, l2) by {
                assert forall|v: usize| s0.linked(n, l2, v) implies #[trigger] s1.linked(n, l2, v) by {
                    assert(s1.links(n, l2) == s0.links(n, l2));
                }
                HnswIndex::lemma_attached_extend(&s0, &s1, dist, n, l2);
            }
            s1.lemma_lookup_at(new as int);
        }
        let ep = match self.entry_point {
            None => {
                self.entry_point = Some(new);
                assert(self.entries_wf());
                return Ok(());
            },
            Some(e) => e,
        };
        let entry_level = self.nodes[ep].level;
        let mut nearest: Vec<usize> = Vec::new();
        nearest.push(ep);
        let mut lc = entry_level;
        while lc > level
            invariant
                self.graph_wf(),
                self.caps_hold(),
                *self == s1,
                kernel_total(dist),
                (new as int) < self.nodes@.len(),
                lc <= entry_level,
                lc >= level || lc == entry_level,
                forall|n: int, l2: int| 0 <= n < s0.count() && s0.attached(dist, n, l2) ==> #[trigger] self.attached(dist, n, l2),
                nearest@.len() > 0,
                forall|i: int| 0 <= i < nearest@.len() ==> #[trigger] nearest@[i] != new,
                forall|i: int|
                    0 <= i < nearest@.len() ==> {
                        &&& (#[trigger] nearest@[i] as int) < self.nodes@.len()
                        &&& self.nodes@[nearest@[i] as int].level >= lc
                    },
            decreases lc,
        {
            let found = self.search_layer(&self.entries[new].vector, &nearest, 1, lc, dist, new);
            nearest = candidate_nodes(&found);
            lc -= 1;
        }
        let mut layer = lc;
        let ghost top = lc as int;
        loop
            invariant_except_break
                forall|m: int| 0 <= m <= layer ==> #[trigger] self.links(new as int, m).len() == 0,
                forall|l2: int|
                    layer < l2 <= top && self.cap(l2) >= 1 ==> #[trigger] self.attached(dist, new as int, l2),
            invariant
                top == (if level < entry_level { level as int } else { entry_level as int }),
                forall|n: int, l2: int| 0 <= n < s0.count() && s0.attached(dist, n, l2) ==> #[trigger] self.attached(dist, n, l2),
                layer <= top,
                nearest@.len() > 0,
                forall|i: int| 0 <= i < nearest@.len() ==> #[trigger] nearest@[i] != new,
                self.graph_wf(),
                self.caps_hold(),
                self.same_shape(&s1),
                kernel_total(dist),
                new == s1.entries@.len() - 1,
                layer <= level,
                forall|i: int|
                    0 <= i < nearest@.len() ==> {
                        &&& (#[trigger] nearest@[i] as int) < self.nodes@.len()
                        &&& self.nodes@[nearest@[i] as int].level >= layer
                    },
                (new as int) < self.nodes@.len(),
                self.nodes@[new as int].level == level,
            ensures
                self.graph_wf(),
                self.caps_hold(),
                self.same_shape(&s1),
                forall|n: int, l2: int| 0 <= n < s0.count() && s0.attached(dist, n, l2) ==> #[trigger] self.attached(dist, n, l2),
                forall|l2: int|
                    0 <= l2 <= top && self.cap(l2) >= 1 ==> #[trigger] self.attached(dist, new as int, l2),
            decreases layer,
        {
            let cands = self.search_layer(&self.entries[new].vector, &nearest, self.config.ef_construction, layer, dist, new);
            let m = if layer == 0 { self.config.max_connections_layer0 } else { self.config.max_connections };
            let neighbors = self.select_neighbors(&cands, m, new, &self.entries[new].vector, layer, dist);
            let ghost s2 = *self;
            let mut j: usize = 0;
            while j < neighbors.len()
                invariant
                    self.graph_wf(),
                    self.same_shape(&s1),
                    j <= neighbors@.len(),
                    neighbors@.len() <= m,
                    m == self.cap(layer as int),
                    forall|n: int, l2: int| 0 <= n < s0.count() && s0.attached(dist, n, l2) ==> #[trigger] self.attached(dist, n, l2),
                    new == s1.entries@.len() - 1,
                    layer <= level,
                    (new as int) < self.nodes@.len(),
                    self.nodes@[new as int].level == level,
                    forall|i: int|
                        0 <= i < neighbors@.len() ==> {
                            &&& (#[trigger] neighbors@[i] as int) < self.nodes@.len()
                            &&& neighbors@[i] != new
                            &&& self.nodes@[neighbors@[i] as int].level >= layer
                        },
                    self.links(new as int, layer as int).len() <= j,
                    forall|jj: int| 0 <= jj < j ==> self.linked(new as int, layer as int, #[trigger] neighbors@[jj]),
                    forall|l2: int|
                        layer < l2 <= top && self.cap(l2) >= 1 ==> #[trigger] self.attached(dist, new as int, l2),
                    forall|k: int, mm: int|
                        #![trigger self.links(k, mm)]
                        self.has_layer(k, mm) && !(mm == layer && (k == new || neighbors@.contains(k as usize)))
                            ==> self.links(k, mm).len() <= self.cap(mm),
                    forall|mm: int| 0 <= mm < layer ==> #[trigger] self.links(new as int, mm).len() == 0,
                decreases neighbors@.len() - j,
            {
                let nb = neighbors[j];
                let ghost s3 = *self;
                self.connect(new, nb, layer);
                proof {
                    assert forall|n: int, l2: int| 0 <= n < s0.count() && s0.attached(dist, n, l2) implies #[trigger] self.attached(dist, n, l2) by {
                        assert(s3.attached(dist, n, l2));
                        HnswIndex::lemma_attached_frame(&s3, self, dist, n, l2);
                    }
                    assert forall|jj: int| 0 <= jj < j + 1 implies self.linked(new as int, layer as int, #[trigger] neighbors@[jj]) by {
                        if jj < j {
                            assert(s3.linked(new as int, layer as int, neighbors@[jj]));
                        }
                    }
                    assert forall|l2: int|
                        layer < l2 <= top && self.cap(l2) >= 1 implies #[trigger] self.attached(dist, new as int, l2) by {
                        assert(s3.cap(l2) == self.cap(l2));
                        HnswIndex::lemma_attached_frame(&s3, self, dist, new as int, l2);
                    }
                    assert forall|k: int, mm: int|
                        #![trigger self.links(k, mm)]
                        self.has_layer(k, mm) && !(mm == layer && (k == new || neighbors@.contains(k as usize)))
                            implies self.links(k, mm).len() <= self.cap(mm) by {
                        assert(s3.has_layer(k, mm));
                        if mm == layer && k == nb {
                            assert(neighbors@[j as int] == nb);
                        }
                    }
                    assert forall|mm: int| 0 <= mm < layer implies #[trigger] self.links(new as int, mm).len() == 0 by {
                        assert(s3.has_layer(new as int, mm));
                    }
                }
                j += 1;
            }
            proof {
                assert(neighbors@.subrange(0, neighbors@.len() as int) =~= neighbors@);
                assert(self.links(new as int, layer as int).len() <= self.cap(layer as int));
            }
            let mut j: usize = 0;
            while j < neighbors.len()
                invariant
                    self.graph_wf(),
                    self.same_shape(&s1),
                    kernel_total(dist),
                    j <= neighbors@.len(),
                    neighbors@.len() <= m,
                    m == self.cap(layer as int),
                    forall|n: int, l2: int| 0 <= n < s0.count() && s0.attached(dist, n, l2) ==> #[trigger] self.attached(dist, n, l2),
                    new == s1.entries@.len() - 1,
                    layer <= level,
                    (new as int) < self.nodes@.len(),
                    self.nodes@[new as int].level == level,
                    forall|i: int|
                        0 <= i < neighbors@.len() ==> {
                            &&& (#[trigger] neighbors@[i] as int) < self.nodes@.len()
                            &&& neighbors@[i] != new
                            &&& self.nodes@[neighbors@[i] as int].level >= layer
                        },
                    neighbors@.no_duplicates(),
                    forall|jj: int| 0 <= jj < j ==> #[trigger] self.attach_via(dist, new as int, layer as int, neighbors@[jj]),
                    forall|jj: int| j <= jj < neighbors@.len() ==> self.linked(new as int, layer as int, #[trigger] neighbors@[jj]),
                    forall|l2: int|
                        layer < l2 <= top && self.cap(l2) >= 1 ==> #[trigger] self.attached(dist, new as int, l2),
                    forall|k: int, mm: int|
                        #![trigger self.links(k, mm)]
                        self.has_layer(k, mm) && !(mm == layer && neighbors@.subrange(j as int, neighbors@.len() as int).contains(k as usize))
                            ==> self.links(k, mm).len() <= self.cap(mm),
                    forall|mm: int| 0 <= mm < layer ==> #[trigger] self.links(new as int, mm).len() == 0,
                decreases neighbors@.len() - j,
            {
                let nb = neighbors[j];
                let ghost s3 = *self;
                self.prune(nb, layer, m, dist);
                proof {
                    assert forall|n: int, l2: int| 0 <= n < s0.count() && s0.attached(dist, n, l2) implies #[trigger] self.attached(dist, n, l2) by {
                        assert(s3.attached(dist, n, l2));
                    }
                    assert(s3.linked(new as int, layer as int, nb));
                    assert(s3.linked(nb as int, layer as int, new));
                    if self.linked(nb as int, layer as int, new) {
                        assert(self.linked(new as int, layer as int, nb));
                    } else {
                        assert(s3.outranked(dist, nb as int, new as int, m as int));
                        HnswIndex::lemma_outranked_frame(&s3, self, dist, nb as int, new as int, m as int);
                    }
                    assert(self.attach_via(dist, new as int, layer as int, nb));
                    assert forall|jj: int| 0 <= jj < j + 1 implies #[trigger] self.attach_via(dist, new as int, layer as int, neighbors@[jj]) by {
                        if jj < j {
                            assert(neighbors@[jj] != nb);
                            assert(s3.attach_via(dist, new as int, layer as int, neighbors@[jj]));
                            HnswIndex::lemma_attach_frame(&s3, self, dist, new as int, layer as int, neighbors@[jj]);
                        }
                    }
                    assert forall|jj: int| j + 1 <= jj < neighbors@.len() implies self.linked(new as int, layer as int, #[trigger] neighbors@[jj]) by {
                        assert(neighbors@[jj] != nb);
                        assert(s3.linked(new as int, layer as int, neighbors@[jj]));
                    }
                    assert forall|l2: int|
                        layer < l2 <= top && self.cap(l2) >= 1 implies #[trigger] self.attached(dist, new as int, l2) by {
                        assert(s3.cap(l2) == self.cap(l2));
                        HnswIndex::lemma_attached_frame(&s3, self, dist, new as int, l2);
                    }
                    assert forall|k: int, mm: int|
                        #![trigger self.links(k, mm)]
                        self.has_layer(k, mm) && !(mm == layer && neighbors@.subrange(j + 1, neighbors@.len() as int).contains(k as usize))
                            implies self.links(k, mm).len() <= self.cap(mm) by {
                        assert(s3.has_layer(k, mm));
                        if !(mm == layer && k == nb) {
                            if mm == layer && neighbors@.subrange(j as int, neighbors@.len() as int).contains(k as usize) {
                                let q = choose|q: int| 0 <= q < neighbors@.subrange(j as int, neighbors@.len() as int).len()
                                    && neighbors@.subrange(j as int, neighbors@.len() as int)[q] == k as usize;
                                assert(q != 0);
                                assert(neighbors@.subrange(j + 1, neighbors@.len() as int)[q - 1] == k as usize);
                            }
                        }
                    }
                    assert forall|mm: int| 0 <= mm < layer implies #[trigger] self.links(new as int, mm).len() == 0 by {
                        assert(s3.has_layer(new as int, mm));
                    }
                }
                j += 1;
            }
            proof {
                assert forall|k: int, mm: int| #[trigger] self.has_layer(k, mm) implies self.links(k, mm).len() <= self.cap(mm) by {
                    assert(neighbors@.subrange(neighbors@.len() as int, neighbors@.len() as int).len() == 0);
                }
            }
            proof {
                if self.cap(layer as int) >= 1 {
                    assert(cands@.len() > 0);
                    assert(neighbors@.len() > 0);
                    assert(self.attach_via(dist, new as int, layer as int, neighbors@[0]));
                }
                assert forall|l2: int|
                    layer <= l2 <= top && self.cap(l2) >= 1 implies #[trigger] self.attached(dist, new as int, l2) by {
                }
            }
            nearest = candidate_nodes(&cands);
            if layer == 0 {
                break;
            }
            layer -= 1;
        }
        let ghost s4 = *self;
        if level > entry_level {
            self.entry_point = Some(new);
        }
        proof {
            s4.lemma_graph_frame(self);
            assert forall|n: int, l2: int| 0 <= n < s0.count() && s0.attached(dist, n, l2) implies #[trigger] self.attached(dist, n, l2) by {
                assert(s4.attached(dist, n, l2));
                HnswIndex::lemma_attached_frame(&s4, self, dist, n, l2);
            }
            assert forall|l: int|
                0 <= l <= (if level > MAX_LEVEL { MAX_LEVEL } else { level }) && l <= s0.entry_level() && self.cap(l) >= 1
                    implies #[trigger] self.attached(dist, s0.count(), l) by {
                assert(s4.cap(l) == self.cap(l));
                assert(s4.attached(dist, new as int, l));
                HnswIndex::lemma_attached_frame(&s4, self, dist, new as int, l);
            }
            assert(self.entries@ == s1.entries@);
            assert(self.entries_wf());
            assert forall|i: int| 0 <= i < self.nodes@.len() implies #[trigger] self.nodes@[i].level
                <= self.nodes@[self.entry_point->0 as int].level by {
                assert(self.nodes@[i].level == s1.nodes@[i].level);
                if i < new {
                    assert(s1.nodes@[i].level == s0.nodes@[i].level);
                }
            }
            assert(self.entry_wf());
            self.lemma_lookup_at(new as int);
            assert forall|i: int| 0 <= i < s0.count() implies #[trigger] self.entry(i) == s0.entry(i) by {}
            HnswIndex::lemma_lookup_extend(&s0, self);
            assert forall|i: int| 0 <= i < s0.count() implies #[trigger] self.level_of(i) == s0.level_of(i) by {
                assert(self.nodes@[i].level == s1.nodes@[i].level);
                assert(s1.nodes@[i] == s0.nodes@[i]);
            }
        }
        Ok(())
    }

    /// `r` reports a live entry: its identifier, its metadata, and its
    /// distance from `q` as the kernel computes it.
    pub closed spec fn hit<D: Fn(&Vec<u32>, &Vec<u32>) -> u32>(
        &self,
        q: &Vec<u32>,
        dist: &D,
        r: SearchResult,
    ) -> bool {
        &&& self.lookup(r.id@) is Some
        &&& !self.entries@[self.lookup(r.id@)->0].deleted
        &&& r.metadata == self.entries@[self.lookup(r.id@)->0].metadata
        &&& dist.ensures((q, &self.entries@[self.lookup(r.id@)->0].vector), r.distance)
    }

    /// `after` is `before` with one more, live entry: identifier `id`, the
    /// stored form of `vector`, `metadata`, on top layer `level` capped at
    /// `MAX_LEVEL`; the earlier entries are unchanged.
    pub closed spec fn inserted<N: Fn(&Vec<u32>) -> Vec<u32>>(
        before: &HnswIndex,
        after: &HnswIndex,
        id: Seq<char>,
        vector: &Vec<u32>,
        metadata: Option<String>,
        level: usize,
        normalize: &N,
    ) -> bool {
        &&& after.count() == before.count() + 1
        &&& forall|i: int| 0 <= i < before.count() ==> #[trigger] after.entry(i) == before.entry(i)
        &&& forall|i: int| 0 <= i < before.count() ==> #[trigger] after.level_of(i) == before.level_of(i)
        &&& after.lookup(id) == Some(before.count())
        &&& after.entry(before.count()).id@ == id
        &&& stored_form(before.spec_metric(), normalize, vector@, after.entry(before.count()).vector@)
        &&& after.entry(before.count()).metadata == metadata
        &&& !after.entry(before.count()).deleted
        &&& after.level_of(before.count()) == if level > MAX_LEVEL { MAX_LEVEL } else { level }
        &&& forall|other: Seq<char>| other != id ==> #[trigger] after.lookup(other) == before.lookup(other)
        &&& forall|other: Seq<char>| other != id ==> #[trigger] after.is_deleted(other) == before.is_deleted(other)
    }

    /// Appending an entry with a new identifier leaves every other
    /// identifier where it was, with its flag.
    proof fn lemma_lookup_extend(before: &HnswIndex, after: &HnswIndex)
        requires
            before.entries_wf(),
            after.entries_wf(),
            after.count() == before.count() + 1,
            forall|i: int| 0 <= i < before.count() ==> #[trigger] after.entry(i) == before.entry(i),
        ensures
            forall|other: Seq<char>|
                other != after.entry(before.count()).id@ ==> #[trigger] after.lookup(other) == before.lookup(other),
            forall|other: Seq<char>|
                other != after.entry(before.count()).id@ ==> #[trigger] after.is_deleted(other) == before.is_deleted(
                    other,
                ),
    {
        assert forall|other: Seq<char>| other != after.entry(before.count()).id@ implies #[trigger] after.lookup(other)
            == before.lookup(other) by {
            before.lemma_lookup_some(other);
            after.lemma_lookup_some(other);
            if before.lookup(other) is Some {
                let p = before.lookup(other)->0;
                assert(after.entry(p) == before.entry(p));
                after.lemma_lookup_at(p);
            }
            if after.lookup(other) is Some {
                let p = after.lookup(other)->0;
                if p < before.count() {
                    assert(after.entry(p) == before.entry(p));
                    before.lemma_lookup_at(p);
                }
            }
        }
        assert forall|other: Seq<char>| other != after.entry(before.count()).id@ implies #[trigger] after.is_deleted(
            other,
        ) == before.is_deleted(other) by {
            assert(after.lookup(other) == before.lookup(other));
            before.lemma_lookup_some(other);
            if before.lookup(other) is Some {
                let p = before.lookup(other)->0;
                assert(after.entry(p) == before.entry(p));
            }
        }
    }

    /// Whether every stored entry is live.
    pub closed spec fn none_deleted(&self) -> bool {
        forall|i: int| 0 <= i < self.entries@.len() ==> !(#[trigger] self.entries@[i]).deleted
    }

    fn search_with<D: Fn(&Vec<u32>, &Vec<u32>) -> u32>(&self, q: &Vec<u32>, k: usize, dist: &D) -> (r: Vec<SearchResult>)
        requires
            self.wf(),
            kernel_total(dist),
        ensures
            r@.len() <= k,
            ranked(r@),
            distinct_ids(r@),
            forall|i: int| 0 <= i < r@.len() ==> self.hit(q, dist, #[trigger] r@[i]),
            self.count() == 0 ==> r@.len() == 0,
            k >= 1 && self.count() > 0 && self.none_deleted() ==> r@.len() > 0,
    {
        let mut results: Vec<SearchResult> = Vec::new();
        let ep = match self.entry_point {
            None => {
                return results;
            },
            Some(e) => e,
        };
        let mut nearest: Vec<usize> = Vec::new();
        nearest.push(ep);
        let mut lc = self.nodes[ep].level;
        while lc > 0
            invariant
                self.wf(),
                kernel_total(dist),
                nearest@.len() > 0,
                forall|i: int|
                    0 <= i < nearest@.len() ==> {
                        &&& (#[trigger] nearest@[i] as int) < self.nodes@.len()
                        &&& self.nodes@[nearest@[i] as int].level >= lc
                    },
            decreases lc,
        {
            let found = self.search_layer(q, &nearest, 1, lc, dist, self.nodes.len());
            nearest = candidate_nodes(&found);
            lc -= 1;
        }
        let ef = if self.config.ef_search > k { self.config.ef_search } else { k };
        let cands = self.search_layer(q, &nearest, ef, 0, dist, self.nodes.len());
        let ghost picked: Seq<int> = Seq::empty();
        let mut t: usize = 0;
        while t < cands.len() && results.len() < k
            invariant
                self.wf(),
                t <= cands@.len(),
                results@.len() <= k,
                sorted_by_distance(cands@),
                distinct_nodes(cands@),
                forall|i: int| 0 <= i < cands@.len() ==> self.scored(q, 0, dist, #[trigger] cands@[i]),
                picked.len() == results@.len(),
                forall|p: int|
                    0 <= p < picked.len() ==> {
                        &&& 0 <= #[trigger] picked[p] < t
                        &&& results@[p].id@ == self.entries@[cands@[picked[p]].node as int].id@
                        &&& results@[p].distance == cands@[picked[p]].distance
                    },
                forall|p: int, p2: int| 0 <= p < p2 < picked.len() ==> picked[p] < picked[p2],
                forall|p: int| 0 <= p < results@.len() ==> self.hit(q, dist, #[trigger] results@[p]),
                ranked_by_distance(results@),
                distinct_ids(results@),
                t > 0 && !self.entries@[cands@[0].node as int].deleted && k >= 1 ==> results@.len() > 0,
            decreases cands@.len() - t,
        {
            let c = cands[t];
            let e = &self.entries[c.node];
            if !e.deleted {
                let hit = SearchResult { id: e.id.clone(), distance: c.distance, metadata: copy_text(&e.metadata) };
                proof {
                    self.lemma_lookup_at(c.node as int);
                    assert forall|p: int| 0 <= p < results@.len() implies results@[p].id@ != hit.id@ by {
                        let tp = picked[p];
                        assert(cands@[tp].node != cands@[t as int].node);
                        let a = cands@[tp].node as int;
                        let b = c.node as int;
                        if a < b {
                            assert(self.entries@[a].id@ != self.entries@[b].id@);
                        } else {
                            assert(self.entries@[b].id@ != self.entries@[a].id@);
                        }
                    }
                    assert forall|p: int| 0 <= p < results@.len() implies order_key_spec(results@[p].distance)
                        <= order_key_spec(hit.distance) by {
                        assert(picked[p] < t);
                    }
                }
                results.push(hit);
                proof {
                    picked = picked.push(t as int);
                }
            }
            t += 1;
        }
        let ghost unordered = results@;
        let out = order_hits(results);
        proof {
            assert forall|i: int| 0 <= i < out@.len() implies self.hit(q, dist, #[trigger] out@[i]) by {
                let j = choose|j: int| 0 <= j < unordered.len() && unordered[j] == out@[i];
            }
        }
        out
    }

    /// Up to `k` live entries near `query`, nearest first, with their
    /// distances. The query must have the index's dimension; under cosine it
    /// is normalised first. An empty index answers with no hits. Hits at the
    /// same distance come in order of their identifiers.
    pub fn search<D: Fn(&Vec<u32>, &Vec<u32>) -> u32, N: Fn(&Vec<u32>) -> Vec<u32>>(
        &self,
        query: &Vec<u32>,
        k: usize,
        dist: &D,
        normalize: &N,
    ) -> (r: Result<Vec<SearchResult>, VectorError>)
        requires
            self.wf(),
            kernel_total(dist),
            normalizer_ok(normalize),
        ensures
            query@.len() != self.spec_dimension() <==> r is Err,
            r is Err ==> r == Err::<Vec<SearchResult>, VectorError>(
                VectorError::DimensionMismatch { expected: self.spec_dimension(), actual: query@.len() as usize },
            ),
            r matches Ok(hits) ==> {
                &&& hits@.len() <= k
                &&& ranked(hits@)
                &&& distinct_ids(hits@)
                &&& exists|q: Vec<u32>| #[trigger] query_form(self.spec_metric(), normalize, query, q)
                    && forall|i: int| 0 <= i < hits@.len() ==> self.hit(&q, dist, #[trigger] hits@[i])
                &&& self.count() == 0 ==> hits@.len() == 0
                &&& k >= 1 && self.count() > 0 && self.none_deleted() ==> hits@.len() > 0
            },
    {
        if query.len() != self.dimension {
            return Err(VectorError::DimensionMismatch { expected: self.dimension, actual: query.len() });
        }
        match self.metric {
            DistanceMetric::Cosine => {
                let q = normalize(query);
                let hits = self.search_with(&q, k, dist);
                assert(query_form(self.spec_metric(), normalize, query, q));
                Ok(hits)
            },
            _ => {
                let hits = self.search_with(query, k, dist);
                assert(query_form(self.spec_metric(), normalize, query, *query));
                Ok(hits)
            },
        }
    }

    /// The top layer of the entry point; 0 for an empty index.
    pub closed spec fn entry_level(&self) -> int {
        match self.entry_point {
            Some(e) => self.nodes@[e as int].level as int,
            None => 0,
        }
    }

    /// Number of soft-deleted entries among the first `upto`.
    pub closed spec fn deleted_upto(&self, upto: int) -> int
        decreases upto,
    {
        if upto <= 0 {
            0
        } else {
            self.deleted_upto(upto - 1) + if self.entries@[upto - 1].deleted { 1int } else { 0int }
        }
    }

    /// Number of soft-deleted entries.
    pub closed spec fn deleted_count(&self) -> int {
        self.deleted_upto(self.entries@.len() as int)
    }

    /// Total length of the layer-`l` neighbour lists of the first `upto` nodes.
    pub closed spec fn layer_links_upto(&self, l: int, upto: int) -> int
        decreases upto,
    {
        if upto <= 0 {
            0
        } else {
            self.layer_links_upto(l, upto - 1) + if self.has_layer(upto - 1, l) {
                self.links(upto - 1, l).len() as int
            } else {
                0int
            }
        }
    }

    proof fn lemma_deleted_upto_bounds(&self, upto: int)
        requires
            0 <= upto <= self.entries@.len(),
        ensures
            0 <= self.deleted_upto(upto) <= upto,
        decreases upto,
    {
        if upto > 0 {
            self.lemma_deleted_upto_bounds(upto - 1);
        }
    }

    /// Counters of the index: entries, live and deleted ones, nodes, the
    /// entry point's layer, and the neighbour slots in use per layer
    /// (saturating at `usize::MAX`).
    pub fn stats(&self) -> (s: IndexStats)
        requires
            self.wf(),
        ensures
            s.num_vectors == self.count(),
            s.num_nodes == self.count(),
            s.num_deleted == self.deleted_count(),
            s.num_active == self.count() - self.deleted_count(),
            s.dimension == self.spec_dimension(),
            s.entry_point_level == self.entry_level(),
            s.connections_per_layer@.len() == MAX_LEVEL + 1,
            forall|l: int|
                0 <= l <= MAX_LEVEL ==> #[trigger] s.connections_per_layer@[l] as int == if self.layer_links_upto(
                    l,
                    self.count(),
                ) > usize::MAX {
                    usize::MAX as int
                } else {
                    self.layer_links_upto(l, self.count())
                },
    {
        let n = self.entries.len();
        let mut deleted: usize = 0;
        let mut i: usize = 0;
        while i < n
            invariant
                n == self.entries@.len(),
                i <= n,
                deleted as int == self.deleted_upto(i as int),
            decreases n - i,
        {
            proof {
                self.lemma_deleted_upto_bounds(i as int);
            }
            if self.entries[i].deleted {
                deleted += 1;
            }
            i += 1;
        }
        proof {
            self.lemma_deleted_upto_bounds(n as int);
        }
        let mut counts: Vec<usize> = Vec::new();
        let mut l: usize = 0;
        while l <= MAX_LEVEL
            invariant
                l <= MAX_LEVEL + 1,
                counts@.len() == l,
                forall|m: int| 0 <= m < l ==> counts@[m] == 0,
            decreases MAX_LEVEL + 1 - l,
        {
            counts.push(0);
            l += 1;
        }
        let mut i: usize = 0;
        while i < n
            invariant
                self.wf(),
                n == self.entries@.len(),
                i <= n,
                counts@.len() == MAX_LEVEL + 1,
                forall|m: int|
                    0 <= m <= MAX_LEVEL ==> #[trigger] counts@[m] as int == if self.layer_links_upto(m, i as int)
                        > usize::MAX {
                        usize::MAX as int
                    } else {
                        self.layer_links_upto(m, i as int)
                    },
            decreases n - i,
        {
            let node = &self.nodes[i];
            let top = node.connections.len();
            let mut j: usize = 0;
            while j < top
                invariant
                    self.wf(),
                    n == self.entries@.len(),
                    i < n,
                    node == self.nodes@[i as int],
                    top == node.connections@.len(),
                    top <= MAX_LEVEL + 1,
                    j <= top,
                    counts@.len() == MAX_LEVEL + 1,
                    forall|m: int|
                        0 <= m < j ==> #[trigger] counts@[m] as int == if self.layer_links_upto(m, i + 1)
                            > usize::MAX {
                            usize::MAX as int
                        } else {
                            self.layer_links_upto(m, i + 1)
                        },
                    forall|m: int|
                        j <= m <= MAX_LEVEL ==> #[trigger] counts@[m] as int == if self.layer_links_upto(m, i as int)
                            > usize::MAX {
                            usize::MAX as int
                        } else {
                            self.layer_links_upto(m, i as int)
                        },
                decreases top - j,
            {
                let add = node.connections[j].len();
                let v = counts[j].saturating_add(add);
                counts.set(j, v);
                proof {
                    assert(self.has_layer(i as int, j as int));
                    assert(self.layer_links_upto(j as int, i + 1) == self.layer_links_upto(j as int, i as int) + add);
                }
                j += 1;
            }
            proof {
                assert forall|m: int| 0 <= m <= MAX_LEVEL implies #[trigger] counts@[m] as int == if self.layer_links_upto(m, i + 1)
                    > usize::MAX {
                    usize::MAX as int
                } else {
                    self.layer_links_upto(m, i + 1)
                } by {
                    if m >= top {
                        assert(!self.has_layer(i as int, m));
                        assert(self.layer_links_upto(m, i + 1) == self.layer_links_upto(m, i as int));
                    }
                }
            }
            i += 1;
        }
        let entry_point_level = match self.entry_point {
            Some(e) => self.nodes[e].level,
            None => 0,
        };
        IndexStats {
            num_vectors: n,
            num_active: n - deleted,
            num_deleted: deleted,
            num_nodes: self.nodes.len(),
            dimension: self.dimension,
            entry_point_level,
            connections_per_layer: counts,
        }
    }

    /// The identifiers stored in the index.
    pub closed spec fn ids(&self) -> Set<Seq<char>> {
        Set::new(|id: Seq<char>| self.lookup(id) is Some)
    }

    /// Inserts the items one after another, each as `insert` would, and
    /// answers each item's outcome: an item goes in exactly when its vector
    /// has the dimension and its identifier is new to the index and to the
    /// items that went in before it.
    pub fn insert_batch<D: Fn(&Vec<u32>, &Vec<u32>) -> u32, N: Fn(&Vec<u32>) -> Vec<u32>>(
        &mut self,
        items: Vec<BatchItem>,
        dist: &D,
        normalize: &N,
    ) -> (r: Vec<Result<(), VectorError>>)
        requires
            old(self).wf(),
            kernel_total(dist),
            normalizer_ok(normalize),
        ensures
            final(self).wf(),
            final(self).spec_dimension() == old(self).spec_dimension(),
            final(self).spec_metric() == old(self).spec_metric(),
            r@.len() == items@.len(),
            forall|i: int|
                0 <= i < items@.len() ==> ((#[trigger] r@[i] is Ok) <==> batch_item_accepted(
                    items@,
                    r@,
                    old(self).spec_dimension(),
                    old(self).ids(),
                    i,
                )),
            forall|i: int| 0 <= i < items@.len() && r@[i] is Ok ==> final(self).ids().contains(#[trigger] items@[i].id@),
            old(self).count() > 0 && final(self).cap(0) >= 1 ==> forall|i: int|
                0 <= i < items@.len() && #[trigger] r@[i] is Ok ==> final(self).attached(
                    dist,
                    final(self).lookup(items@[i].id@)->0,
                    0,
                ),
    {
        let ghost s0 = *self;
        let ghost all = items@;
        let mut results: Vec<Result<(), VectorError>> = Vec::new();
        let n = items.len();
        let mut k: usize = 0;
        while k < n
            invariant
                self.wf(),
                kernel_total(dist),
                normalizer_ok(normalize),
                self.spec_dimension() == s0.spec_dimension(),
                self.spec_metric() == s0.spec_metric(),
                n == all.len(),
                k <= n,
                items@ == all,
                results@.len() == k,
                self.spec_config() == s0.spec_config(),
                self.count() >= s0.count(),
                s0.count() > 0 && self.cap(0) >= 1 ==> forall|j: int|
                    0 <= j < k && #[trigger] results@[j] is Ok ==> self.lookup(all[j].id@) is Some && self.attached(
                        dist,
                        self.lookup(all[j].id@)->0,
                        0,
                    ),
                forall|i: int|
                    0 <= i < k ==> ((#[trigger] results@[i] is Ok) <==> batch_item_accepted(
                        all,
                        results@,
                        s0.spec_dimension(),
                        s0.ids(),
                        i,
                    )),
                forall|id: Seq<char>|
                    #[trigger] self.ids().contains(id) <==> (s0.ids().contains(id) || exists|j: int|
                        0 <= j < k && results@[j] is Ok && all[j].id@ == id),
            decreases n - k,
        {
            let item = &items[k];
            let ghost before = *self;
            let ghost before_results = results@;
            let id = item.id.clone();
            let ghost idv = id@;
            let r = self.insert(id, copy_bits(&item.vector), copy_text(&item.metadata), item.level, dist, normalize);
            proof {
                assert(idv == all[k as int].id@);
                assert(before.ids().contains(idv) <==> before.lookup(idv) is Some);
                if r is Ok {
                    assert forall|other: Seq<char>| #[trigger] self.ids().contains(other) <==> (before.ids().contains(other) || other == idv) by {
                        before.lemma_lookup_some(other);
                        self.lemma_lookup_some(other);
                        if before.lookup(other) is Some {
                            let p = before.lookup(other)->0;
                            assert(self.entry(p) == before.entry(p));
                            self.lemma_lookup_at(p);
                        }
                        if self.lookup(other) is Some {
                            let p = self.lookup(other)->0;
                            if p < before.count() {
                                assert(self.entry(p) == before.entry(p));
                                before.lemma_lookup_at(p);
                            }
                        }
                    }
                }
            }
            results.push(r);
            proof {
                if s0.count() > 0 && self.cap(0) >= 1 {
                    assert(before.cap(0) == self.cap(0));
                    assert forall|j: int|
                        0 <= j < k + 1 && #[trigger] results@[j] is Ok implies self.lookup(all[j].id@) is Some && self.attached(
                        dist,
                        self.lookup(all[j].id@)->0,
                        0,
                    ) by {
                        if j < k {
                            assert(results@[j] == before_results[j]);
                            let pj = before.lookup(all[j].id@)->0;
                            before.lemma_lookup_some(all[j].id@);
                            assert(before.lookup(all[j].id@) is Some);
                            assert(before.attached(dist, pj, 0));
                            if r is Ok {
                                assert(all[j].id@ != idv) by {
                                    if all[j].id@ == idv {
                                        assert(before.ids().contains(idv));
                                    }
                                }
                                assert(self.lookup(all[j].id@) == before.lookup(all[j].id@));
                                assert(self.attached(dist, pj, 0));
                            } else {
                                assert(*self == before);
                            }
                        } else {
                            assert(r is Ok);
                            assert(self.lookup(idv) == Some(before.count()));
                            assert(before.entry_level() >= 0);
                            assert(before.count() > 0);
                            assert(self.attached(dist, before.count(), 0));
                            assert(all[j].id@ == idv);
                        }
                    }
                }
                assert forall|i: int| 0 <= i < k + 1 implies ((#[trigger] results@[i] is Ok) <==> batch_item_accepted(
                    all,
                    results@,
                    s0.spec_dimension(),
                    s0.ids(),
                    i,
                )) by {
                    if i < k {
                        assert(results@[i] == before_results[i]);
                        assert forall|j: int| 0 <= j < i implies results@[j] == before_results[j] by {}
                    } else {
                        assert forall|j: int| 0 <= j < i implies results@[j] == before_results[j] by {}
                        if all[i].vector@.len() == s0.spec_dimension() && !s0.ids().contains(all[i].id@) {
                            if exists|j: int| 0 <= j < i && results@[j] is Ok && all[j].id@ == all[i].id@ {
                                assert(before.ids().contains(idv));
                            } else {
                                assert(!before.ids().contains(idv));
                            }
                        }
                        if before.ids().contains(idv) && !s0.ids().contains(idv) {
                            let j = choose|j: int| 0 <= j < k && before_results[j] is Ok && all[j].id@ == idv;
                            assert(results@[j] is Ok);
                        }
                    }
                }
                assert forall|id: Seq<char>|
                    #[trigger] self.ids().contains(id) <==> (s0.ids().contains(id) || exists|j: int|
                        0 <= j < k + 1 && results@[j] is Ok && all[j].id@ == id) by {
                    let e_old = exists|j: int| 0 <= j < k && before_results[j] is Ok && all[j].id@ == id;
                    let e_new = exists|j: int| 0 <= j < k + 1 && results@[j] is Ok && all[j].id@ == id;
                    assert(before.ids().contains(id) <==> (s0.ids().contains(id) || e_old));
                    if e_old {
                        let j = choose|j: int| 0 <= j < k && before_results[j] is Ok && all[j].id@ == id;
                        assert(results@[j] == before_results[j]);
                        assert(e_new);
                    }
                    if e_new {
                        let j = choose|j: int| 0 <= j < k + 1 && results@[j] is Ok && all[j].id@ == id;
                        if j < k {
                            assert(results@[j] == before_results[j]);
                            assert(e_old);
                        } else {
                            assert(r is Ok && id == idv);
                        }
                    }
                    if r is Ok {
                        assert(self.ids().contains(id) <==> (before.ids().contains(id) || id == idv));
                        if id == idv {
                            assert(results@[k as int] is Ok && all[k as int].id@ == id);
                            assert(e_new);
                        }
                    } else {
                        assert(*self == before);
                        if e_new {
                            assert(e_old);
                        }
                    }
                }
            }
            k += 1;
        }
        proof {
            assert forall|i: int| 0 <= i < all.len() && results@[i] is Ok implies self.ids().contains(#[trigger] all[i].id@) by {
                assert(exists|j: int| 0 <= j < k && results@[j] is Ok && all[j].id@ == all[i].id@);
            }
        }
        results
    }

    /// The framed entries at positions `0..upto`.
    pub closed spec fn frames_upto(&self, upto: int) -> Seq<u8>
        decreases upto,
    {
        if upto <= 0 {
            Seq::empty()
        } else {
            self.frames_upto(upto - 1) + entry_frame(self.entries@[upto - 1], self.nodes@[upto - 1].level as int, upto - 1)
        }
    }

    /// The snapshot of the index: its record (dimension, metric, parameters),
    /// the number of entries, then every entry in insertion order with its
    /// layer. Replaying the entries in that order rebuilds the graph.
    pub closed spec fn snapshot_bytes(&self) -> Seq<u8> {
        meta_record(IndexMeta { dimension: self.dimension, metric: self.metric, config: self.config }) + be32(
            self.entries@.len() as u32,
        ) + self.frames_upto(self.entries@.len() as int)
    }

    /// Whether every number of the snapshot fits in 32 bits.
    pub closed spec fn snapshot_fits(&self) -> bool {
        &&& meta_fits(IndexMeta { dimension: self.dimension, metric: self.metric, config: self.config })
        &&& self.entries@.len() <= u32::MAX
        &&& forall|i: int|
            0 <= i < self.entries@.len() ==> {
                &&& (#[trigger] self.entries@[i]).vector@.len() <= u32::MAX
                &&& encode_utf8(self.entries@[i].id@).len() <= u32::MAX
                &&& (self.entries@[i].metadata matches Some(m) ==> encode_utf8(m@).len() <= u32::MAX)
            }
    }

    proof fn lemma_frames_agree(&self, other: &Self, upto: int)
        requires
            0 <= upto <= self.entries@.len(),
            upto <= other.entries@.len(),
            upto <= self.nodes@.len(),
            upto <= other.nodes@.len(),
            forall|k: int| 0 <= k < upto ==> #[trigger] self.entries@[k] == other.entries@[k],
            forall|k: int| 0 <= k < upto ==> #[trigger] self.nodes@[k].level == other.nodes@[k].level,
        ensures
            self.frames_upto(upto) == other.frames_upto(upto),
        decreases upto,
    {
        if upto > 0 {
            self.lemma_frames_agree(other, upto - 1);
        }
    }

    /// The snapshot bytes of the index; `None` when a length or parameter
    /// does not fit in 32 bits.
    pub fn snapshot(&self) -> (r: Option<Vec<u8>>)
        requires
            self.wf(),
        ensures
            r is Some <==> self.snapshot_fits(),
            r matches Some(b) ==> b@ == self.snapshot_bytes(),
    {
        let meta = IndexMeta { dimension: self.dimension, metric: self.metric, config: self.config };
        if meta.dimension > 0xFFFF_FFFFusize || meta.config.max_connections > 0xFFFF_FFFFusize
            || meta.config.max_connections_layer0 > 0xFFFF_FFFFusize || meta.config.ef_construction
            > 0xFFFF_FFFFusize || meta.config.ef_search > 0xFFFF_FFFFusize || self.entries.len() > 0xFFFF_FFFFusize {
            return None;
        }
        let n = self.entries.len();
        let mut i: usize = 0;
        while i < n
            invariant
                n == self.entries@.len(),
                i <= n,
                forall|k: int|
                    0 <= k < i ==> {
                        &&& (#[trigger] self.entries@[k]).vector@.len() <= u32::MAX
                        &&& encode_utf8(self.entries@[k].id@).len() <= u32::MAX
                        &&& (self.entries@[k].metadata matches Some(m) ==> encode_utf8(m@).len() <= u32::MAX)
                    },
            decreases n - i,
        {
            let e = &self.entries[i];
            let id_bytes = encode_text(e.id.as_str());
            if e.vector.len() > 0xFFFF_FFFFusize || id_bytes.len() > 0xFFFF_FFFFusize {
                return None;
            }
            match &e.metadata {
                Some(m) => {
                    let m_bytes = encode_text(m.as_str());
                    if m_bytes.len() > 0xFFFF_FFFFusize {
                        return None;
                    }
                },
                None => {},
            }
            i += 1;
        }
        let mut out = encode_index_meta(&meta);
        push_be32(&mut out, n as u32);
        let ghost head = out@;
        let mut i: usize = 0;
        while i < n
            invariant
                self.wf(),
                self.snapshot_fits(),
                n == self.entries@.len(),
                i <= n,
                out@ == head + self.frames_upto(i as int),
            decreases n - i,
        {
            let e = &self.entries[i];
            let rec = encode_vector(
                &e.vector,
                RecordHead { deleted: e.deleted, level: self.nodes[i].level as u8, position: i as u32 },
            );
            append_bytes(&mut out, rec.as_slice());
            push_text_frame(&mut out, e.id.as_str());
            match &e.metadata {
                None => {
                    out.push(0u8);
                },
                Some(m) => {
                    out.push(1u8);
                    push_text_frame(&mut out, m.as_str());
                },
            }
            proof {
                assert(out@ =~= head + self.frames_upto(i + 1));
            }
            i += 1;
        }
        Some(out)
    }

    /// Frame `i` sits right after frames `0..i` inside frames `0..n`.
    proof fn lemma_frame_at(&self, i: int, n: int)
        requires
            0 <= i < n <= self.entries@.len(),
            n <= self.nodes@.len(),
        ensures
            self.frames_upto(i + 1) == self.frames_upto(i) + entry_frame(self.entries@[i], self.nodes@[i].level as int, i),
            self.frames_upto(i + 1).len() <= self.frames_upto(n).len(),
            self.frames_upto(n).subrange(0, self.frames_upto(i + 1).len() as int) == self.frames_upto(i + 1),
        decreases n,
    {
        if n > i + 1 {
            self.lemma_frame_at(i, n - 1);
            let last = entry_frame(self.entries@[n - 1], self.nodes@[n - 1].level as int, n - 1);
            assert(self.frames_upto(n) == self.frames_upto(n - 1) + last);
            assert(self.frames_upto(n).subrange(0, self.frames_upto(i + 1).len() as int) =~= self.frames_upto(
                n - 1,
            ).subrange(0, self.frames_upto(i + 1).len() as int));
        } else {
            assert(self.frames_upto(n).subrange(0, self.frames_upto(n).len() as int) =~= self.frames_upto(n));
        }
    }

    /// An entry frame splits into its record, identifier and metadata frames.
    proof fn lemma_frame_split(b: Seq<u8>, pos: int, e: VectorEntry, lvl: int, i: int)
        requires
            0 <= pos,
            pos + entry_frame(e, lvl, i).len() <= b.len(),
            b.subrange(pos, pos + entry_frame(e, lvl, i).len()) == entry_frame(e, lvl, i),
        ensures
            ({
                let r = vector_record(e.vector@, RecordHead { deleted: e.deleted, level: lvl as u8, position: i as u32 });
                let t = text_frame(e.id@);
                let m = meta_frame(e.metadata);
                &&& entry_frame(e, lvl, i).len() == r.len() + t.len() + m.len()
                &&& b.subrange(pos, pos + r.len()) == r
                &&& b.subrange(pos + r.len(), pos + r.len() + t.len()) == t
                &&& b.subrange(pos + r.len() + t.len(), pos + r.len() + t.len() + m.len()) == m
            }),
    {
        let r = vector_record(e.vector@, RecordHead { deleted: e.deleted, level: lvl as u8, position: i as u32 });
        let t = text_frame(e.id@);
        let m = meta_frame(e.metadata);
        let f = entry_frame(e, lvl, i);
        assert(f == r + t + m);
        assert(b.subrange(pos, pos + r.len()) =~= f.subrange(0, r.len() as int));
        assert(f.subrange(0, r.len() as int) =~= r);
        assert(b.subrange(pos + r.len(), pos + r.len() + t.len()) =~= f.subrange(r.len() as int, (r.len() + t.len()) as int));
        assert(f.subrange(r.len() as int, (r.len() + t.len()) as int) =~= t);
        assert(b.subrange(pos + r.len() + t.len(), pos + r.len() + t.len() + m.len()) =~= f.subrange(
            (r.len() + t.len()) as int,
            f.len() as int,
        ));
        assert(f.subrange((r.len() + t.len()) as int, f.len() as int) =~= m);
    }

    /// Whether an entry on layer `lvl` can be replayed into an index of `dimension`.
    pub open spec fn restorable(e: VectorEntry, lvl: int, dimension: usize) -> bool {
        &&& e.vector@.len() <= u32::MAX
        &&& encode_utf8(e.id@).len() <= u32::MAX
        &&& (e.metadata matches Some(m) ==> encode_utf8(m@).len() <= u32::MAX)
        &&& 0 <= lvl <= MAX_LEVEL
        &&& e.vector@.len() == dimension
    }

    /// Reads the entry frame at `pos` and replays it as entry `i`: inserted on
    /// its recorded layer with its vector as stored, then flagged.
    #[verifier::spinoff_prover]
    #[verifier::rlimit(100)]
    fn restore_step<D: Fn(&Vec<u32>, &Vec<u32>) -> u32, N: Fn(&Vec<u32>) -> Vec<u32>>(
        &mut self,
        b: &[u8],
        pos: usize,
        i: usize,
        dist: &D,
        keep: &N,
    ) -> (r: Result<usize, VectorError>)
        requires
            old(self).wf(),
            kernel_total(dist),
            normalizer_ok(keep),
            forall|v: &Vec<u32>, c: Vec<u32>| #[trigger] keep.ensures((v,), c) ==> c@ == v@,
            old(self).count() == i,
            i <= u32::MAX,
            pos <= b@.len(),
        ensures
            r is Err ==> r == Err::<usize, VectorError>(VectorError::SerializationError),
            r matches Ok(next) ==> {
                &&& final(self).wf()
                &&& pos < next <= b@.len()
                &&& final(self).count() == i + 1
                &&& final(self).spec_dimension() == old(self).spec_dimension()
                &&& final(self).spec_metric() == old(self).spec_metric()
                &&& final(self).spec_config() == old(self).spec_config()
                &&& forall|k: int| 0 <= k < i ==> #[trigger] final(self).entries@[k] == old(self).entries@[k]
                &&& forall|k: int| 0 <= k < i ==> #[trigger] final(self).nodes@[k].level == old(self).nodes@[k].level
                &&& b@.subrange(pos as int, next as int) == entry_frame(
                    final(self).entries@[i as int],
                    final(self).nodes@[i as int].level as int,
                    i as int,
                )
            },
            forall|e: VectorEntry, lvl: int|
                #![trigger entry_frame(e, lvl, i as int)]
                HnswIndex::restorable(e, lvl, old(self).spec_dimension()) && old(self).lookup(e.id@) is None && pos
                    + entry_frame(e, lvl, i as int).len() <= b@.len() && b@.subrange(
                    pos as int,
                    pos + entry_frame(e, lvl, i as int).len(),
                ) == entry_frame(e, lvl, i as int) ==> (r matches Ok(next) && next == pos + entry_frame(
                    e,
                    lvl,
                    i as int,
                ).len() && final(self).entries@[i as int].id@ == e.id@),
    {
        let ghost framed = exists|e: VectorEntry, lvl: int|
            HnswIndex::restorable(e, lvl, old(self).spec_dimension()) && old(self).lookup(e.id@) is None && pos
                + entry_frame(e, lvl, i as int).len() <= b@.len() && b@.subrange(
                pos as int,
                pos + entry_frame(e, lvl, i as int).len(),
            ) == #[trigger] entry_frame(e, lvl, i as int);
        let ghost (we, wl): (VectorEntry, int) = choose|e: VectorEntry, lvl: int|
            HnswIndex::restorable(e, lvl, old(self).spec_dimension()) && old(self).lookup(e.id@) is None && pos
                + entry_frame(e, lvl, i as int).len() <= b@.len() && b@.subrange(
                pos as int,
                pos + entry_frame(e, lvl, i as int).len(),
            ) == #[trigger] entry_frame(e, lvl, i as int);
        let ghost wh = RecordHead { deleted: we.deleted, level: wl as u8, position: i as u32 };
        proof {
            if framed {
                HnswIndex::lemma_frame_split(b@, pos as int, we, wl, i as int);
            }
        }
        let (v, head, rec_end) = parse_record(b, pos)?;
        proof {
            if framed {
                assert(vector_record(we.vector@, wh) == b@.subrange(pos as int, pos + vector_record(we.vector@, wh).len()));
                assert(v@ == we.vector@ && head == wh);
            }
        }
        if head.position as usize != i || head.level as usize > MAX_LEVEL || v.len() != self.dimension {
            return Err(VectorError::SerializationError);
        }
        let (id, after_id) = read_text_frame(b, rec_end)?;
        proof {
            if framed {
                assert(text_frame(we.id@) == b@.subrange(rec_end as int, rec_end + text_frame(we.id@).len()));
                assert(id@ == we.id@);
            }
        }
        let (metadata, next) = parse_meta(b, after_id)?;
        proof {
            if framed {
                assert(meta_frame(we.metadata) == b@.subrange(after_id as int, after_id + meta_frame(we.metadata).len()));
                assert(next == pos + entry_frame(we, wl, i as int).len());
                self.lemma_lookup_some(we.id@);
            }
        }
        if self.find(id.as_str()).is_some() {
            return Err(VectorError::SerializationError);
        }
        let ghost before = *self;
        let ghost idv = id@;
        let ghost vv = v@;
        let ghost mv = metadata;
        let id_copy = id.clone();
        let inserted = self.insert(id, v, metadata, head.level as usize, dist, keep);
        if inserted.is_err() {
            return Err(VectorError::SerializationError);
        }
        let ghost mid = *self;
        if head.deleted {
            let _ = self.set_deleted(id_copy.as_str(), true);
        }
        proof {
            let e = self.entries@[i as int];
            let m0 = mid.entry(i as int);
            assert(m0.id@ == idv);
            if before.spec_metric() == DistanceMetric::Cosine {
                let (w, c) = choose|w: Vec<u32>, c: Vec<u32>| w@ == vv && #[trigger] keep.ensures((&w, ), c) && c@ == m0.vector@;
                assert(c@ == vv);
            }
            assert(m0.vector@ == vv);
            before.lemma_lookup_some(idv);
            if head.deleted {
                assert(m0.id@ == id_copy@);
                assert(self.entry(i as int) == (VectorEntry { deleted: true, ..m0 }));
                assert(self.level_of(i as int) == mid.level_of(i as int));
            } else {
                assert(*self == mid);
            }
            assert forall|k: int| 0 <= k < i implies #[trigger] self.entries@[k] == before.entries@[k] by {
                assert(mid.entry(k) == before.entry(k));
                assert(before.entry(k).id@ != idv);
                if head.deleted {
                    assert(mid.entry(k).id@ != id_copy@);
                    assert(self.entry(k) == mid.entry(k));
                } else {
                    assert(*self == mid);
                }
            }
            assert forall|k: int| 0 <= k < i implies #[trigger] self.nodes@[k].level == before.nodes@[k].level by {
                assert(mid.level_of(k) == before.level_of(k));
                if head.deleted {
                    assert(self.level_of(k) == mid.level_of(k));
                } else {
                    assert(*self == mid);
                }
            }
            assert(e.id@ == idv && e.vector@ == vv && e.metadata == mv && e.deleted == head.deleted);
            assert(self.nodes@[i as int].level == head.level as usize);
            assert(RecordHead { deleted: e.deleted, level: (self.nodes@[i as int].level as int) as u8, position: i as u32 } == head);
            assert(b@.subrange(pos as int, next as int) =~= b@.subrange(pos as int, rec_end as int) + b@.subrange(
                rec_end as int,
                after_id as int,
            ) + b@.subrange(after_id as int, next as int));
            assert(b@.subrange(pos as int, next as int) == entry_frame(e, self.nodes@[i as int].level as int, i as int));
            assert forall|e2: VectorEntry, lvl2: int|
                #![trigger entry_frame(e2, lvl2, i as int)]
                HnswIndex::restorable(e2, lvl2, before.spec_dimension()) && before.lookup(e2.id@) is None && pos
                    + entry_frame(e2, lvl2, i as int).len() <= b@.len() && b@.subrange(
                    pos as int,
                    pos + entry_frame(e2, lvl2, i as int).len(),
                ) == entry_frame(e2, lvl2, i as int) implies next == pos + entry_frame(e2, lvl2, i as int).len()
                && self.entries@[i as int].id@ == e2.id@ by {
                HnswIndex::lemma_frame_split(b@, pos as int, e2, lvl2, i as int);
                let h2 = RecordHead { deleted: e2.deleted, level: lvl2 as u8, position: i as u32 };
                assert(vector_record(e2.vector@, h2) == b@.subrange(pos as int, pos + vector_record(e2.vector@, h2).len()));
                assert(rec_end == pos + vector_record(e2.vector@, h2).len());
                assert(text_frame(e2.id@) == b@.subrange(rec_end as int, rec_end + text_frame(e2.id@).len()));
                assert(id_copy@ == e2.id@);
                assert(meta_frame(e2.metadata) == b@.subrange(after_id as int, after_id + meta_frame(e2.metadata).len()));
            }
        }
        Ok(next)
    }

    /// Rebuilds an index from its snapshot: the entries are replayed in
    /// insertion order on their recorded layers, so the graph comes back as
    /// it was built. The snapshot of every well-formed index whose sizes fit
    /// is accepted; bytes that are no snapshot are refused with
    /// `SerializationError`, a snapshot of another format version with
    /// `InvalidVector`.
    #[verifier::spinoff_prover]
    #[verifier::rlimit(100)]
    pub fn restore<D: Fn(&Vec<u32>, &Vec<u32>) -> u32>(b: &[u8], dist: &D) -> (r: Result<HnswIndex, VectorError>)
        requires
            kernel_total(dist),
        ensures
            r matches Ok(index) ==> index.wf() && index.snapshot_bytes() == b@ && index.spec_dimension() <= u32::MAX,
            r is Err ==> r == Err::<HnswIndex, VectorError>(VectorError::SerializationError) || r == Err::<
                HnswIndex,
                VectorError,
            >(VectorError::InvalidVector),
            forall|x: HnswIndex| x.wf() && x.snapshot_fits() && #[trigger] x.snapshot_bytes() == b@ ==> r is Ok,
    {
        let ghost framed = exists|x: HnswIndex| x.wf() && x.snapshot_fits() && #[trigger] x.snapshot_bytes() == b@;
        let ghost wx: HnswIndex = choose|x: HnswIndex| x.wf() && x.snapshot_fits() && #[trigger] x.snapshot_bytes() == b@;
        let ghost wmeta = IndexMeta { dimension: wx.dimension, metric: wx.metric, config: wx.config };
        let ghost wn = wx.entries@.len();
        proof {
            if framed {
                HnswIndex::lemma_snapshot_header(&wx);
                assert(b@.subrange(0, 22) =~= meta_record(wmeta));
                assert(b@.subrange(22, 26) =~= be32(wn as u32));
                crate::codec::lemma_be32_round_trip(wn as u32);
                assert(crate::codec::be32_at(b@, 22) == crate::codec::be32_at(be32(wn as u32), 0));
            }
        }
        if b.len() < 26 {
            return Err(VectorError::SerializationError);
        }
        let meta = decode_index_meta(slice_subrange(b, 0, 22))?;
        let count = read_be32(b, 22) as usize;
        let mut index = HnswIndex::with_config(meta.dimension, meta.metric, meta.config);
        let keep = |v: &Vec<u32>| -> (c: Vec<u32>)
            ensures
                c@ == v@,
            { copy_bits(v) };
        proof {
            crate::codec::lemma_be32_bytes(b@, 22);
            assert(b@.subrange(0, 26) =~= meta_record(meta) + be32(count as u32));
        }
        let ghost header = meta_record(meta) + be32(count as u32);
        proof {
            if framed {
                assert(meta == wmeta);
                assert(count == wn);
                assert(b@ == header + wx.frames_upto(wn as int));
            }
        }
        let mut pos: usize = 26;
        let mut i: usize = 0;
        while i < count
            invariant
                index.wf(),
                kernel_total(dist),
                normalizer_ok(&keep),
                forall|v: &Vec<u32>, c: Vec<u32>| #[trigger] keep.ensures((v,), c) ==> c@ == v@,
                index.spec_dimension() == meta.dimension,
                index.spec_metric() == meta.metric,
                index.spec_config() == meta.config,
                index.count() == i,
                i <= count,
                count <= u32::MAX,
                26 <= pos <= b@.len(),
                header == meta_record(meta) + be32(count as u32),
                b@.subrange(0, pos as int) == header + index.frames_upto(i as int),
                framed == (exists|x: HnswIndex| x.wf() && x.snapshot_fits() && #[trigger] x.snapshot_bytes() == b@),
                framed ==> HnswIndex::restore_witness(&wx, b@, header, meta.dimension, count as int),
                framed ==> pos == 26 + wx.frames_upto(i as int).len(),
                framed ==> forall|k: int| 0 <= k < i ==> #[trigger] index.entries@[k].id@ == wx.entries@[k].id@,
            decreases count - i,
        {
            proof {
                if framed {
                    HnswIndex::lemma_witness_step(&wx, b@, header, meta.dimension, count as int, i as int);
                    assert forall|k: int| 0 <= k < index.entries@.len() implies (#[trigger] index.entries@[k]).id@
                        != wx.entries@[i as int].id@ by {
                        assert(wx.entries@[k].id@ != wx.entries@[i as int].id@);
                    }
                    index.lemma_lookup_some(wx.entries@[i as int].id@);
                    let we = wx.entries@[i as int];
                    let wl = wx.nodes@[i as int].level as int;
                    assert(HnswIndex::restorable(we, wl, index.spec_dimension()));
                    assert(index.lookup(we.id@) is None);
                    assert(pos + entry_frame(we, wl, i as int).len() <= b@.len());
                    assert(b@.subrange(pos as int, pos + entry_frame(we, wl, i as int).len()) == entry_frame(we, wl, i as int));
                }
            }
            let ghost before = index;
            let step = index.restore_step(b, pos, i, dist, &keep);
            let next = match step {
                Ok(next) => next,
                Err(e) => {
                    proof {
                        if framed {
                            assert(step matches Ok(_));
                        }
                    }
                    return Err(e);
                },
            };
            proof {
                index.lemma_frames_agree(&before, i as int);
                let e = index.entries@[i as int];
                let f = entry_frame(e, index.nodes@[i as int].level as int, i as int);
                assert(index.frames_upto(i + 1) == index.frames_upto(i as int) + f);
                assert(b@.subrange(0, next as int) =~= b@.subrange(0, pos as int) + b@.subrange(pos as int, next as int));
                assert(b@.subrange(0, next as int) =~= header + index.frames_upto(i + 1));
                if framed {
                    wx.lemma_frame_at(i as int, count as int);
                    assert forall|k: int| 0 <= k < i + 1 implies #[trigger] index.entries@[k].id@ == wx.entries@[k].id@ by {
                        if k < i {
                            assert(index.entries@[k] == before.entries@[k]);
                        }
                    }
                }
            }
            pos = next;
            i += 1;
        }
        proof {
            if framed {
                assert(wx.frames_upto(count as int).len() + 26 == b@.len());
            }
        }
        if pos != b.len() {
            return Err(VectorError::SerializationError);
        }
        proof {
            assert(b@.subrange(0, pos as int) =~= b@);
            assert(index.snapshot_bytes() == header + index.frames_upto(count as int));
        }
        Ok(index)
    }

    /// The snapshot starts with the 26-byte header.
    proof fn lemma_snapshot_header(x: &HnswIndex)
        ensures
            meta_record(IndexMeta { dimension: x.dimension, metric: x.metric, config: x.config }).len() == 22,
            x.snapshot_bytes().len() >= 26,
            x.snapshot_bytes().subrange(0, 22) == meta_record(
                IndexMeta { dimension: x.dimension, metric: x.metric, config: x.config },
            ),
            x.snapshot_bytes().subrange(22, 26) == be32(x.entries@.len() as u32),
    {
        let m = meta_record(IndexMeta { dimension: x.dimension, metric: x.metric, config: x.config });
        let s = x.snapshot_bytes();
        assert(s.subrange(0, 22) =~= m);
        assert(s.subrange(22, 26) =~= be32(x.entries@.len() as u32));
    }

    /// What the restore loop needs to know about the index a snapshot came from.
    spec fn restore_witness(x: &HnswIndex, b: Seq<u8>, header: Seq<u8>, dimension: usize, n: int) -> bool {
        &&& header.len() == 26
        &&& b == header + x.frames_upto(n)
        &&& n == x.entries@.len()
        &&& n == x.nodes@.len()
        &&& forall|k: int|
            0 <= k < n ==> HnswIndex::restorable(#[trigger] x.entries@[k], x.nodes@[k].level as int, dimension)
        &&& forall|k1: int, k2: int| 0 <= k1 < k2 < n ==> x.entries@[k1].id@ != x.entries@[k2].id@
    }

    /// Frame `i` of the witness is where the loop reads.
    proof fn lemma_witness_step(x: &HnswIndex, b: Seq<u8>, header: Seq<u8>, dimension: usize, n: int, i: int)
        requires
            HnswIndex::restore_witness(x, b, header, dimension, n),
            0 <= i < n,
        ensures
            ({
                let f = entry_frame(x.entries@[i], x.nodes@[i].level as int, i);
                let pos: int = (26 + x.frames_upto(i).len()) as int;
                &&& pos + f.len() <= b.len()
                &&& b.subrange(pos, pos + f.len()) == f
                &&& 26 + x.frames_upto(i + 1).len() == pos + f.len()
                &&& HnswIndex::restorable(x.entries@[i], x.nodes@[i].level as int, dimension)
            }),
            forall|k: int| 0 <= k < n && k != i ==> x.entries@[k].id@ != #[trigger] x.entries@[i].id@,
    {
        x.lemma_frame_at(i, n);
        let f = entry_frame(x.entries@[i], x.nodes@[i].level as int, i);
        let fi = x.frames_upto(i);
        let pos: int = (26 + fi.len()) as int;
        assert(x.frames_upto(i + 1) == fi + f);
        assert(b.subrange(pos, pos + f.len()) =~= x.frames_upto(n).subrange(fi.len() as int, (fi.len() + f.len()) as int));
        assert(x.frames_upto(n).subrange(fi.len() as int, (fi.len() + f.len()) as int) =~= x.frames_upto(i + 1).subrange(
            fi.len() as int,
            (fi.len() + f.len()) as int,
        ));
        assert(x.frames_upto(i + 1).subrange(fi.len() as int, (fi.len() + f.len()) as int) =~= f);
        assert(HnswIndex::restorable(x.entries@[i], x.nodes@[i].level as int, dimension));
        assert forall|k: int| 0 <= k < n && k != i implies x.entries@[k].id@ != #[trigger] x.entries@[i].id@ by {
            if k < i {
            } else {
            }
        }
    }

    /// The index that recovery starts from: well-formed with the recorded
    /// dimension and metric, either empty or installed from the snapshot; and
    /// installed from the snapshot whenever that is the snapshot of a
    /// well-formed index with the recorded dimension and metric.
    pub open spec fn recovery_base(base: &HnswIndex, meta: IndexMeta, snapshot: Option<Vec<u8>>) -> bool {
        &&& base.wf()
        &&& base.spec_dimension() == meta.dimension
        &&& base.spec_metric() == meta.metric
        &&& (base.count() == 0 || (snapshot matches Some(b) && base.snapshot_bytes() == b@))
        &&& snapshot matches Some(b) ==> ((exists|x: HnswIndex|
            x.wf() && x.snapshot_fits() && #[trigger] x.snapshot_bytes() == b@ && x.spec_dimension() == meta.dimension
                && x.spec_metric() == meta.metric) ==> base.snapshot_bytes() == b@)
    }

    /// `index` is `base` with the records replayed: the entries of `base` keep
    /// their identifier, vector and metadata; the identifiers are those of
    /// `base` and of the records; a record that is the only one with its
    /// identifier sets its flag, and when that identifier was not in `base` its
    /// entry holds the stored form of the record's vector and the record's
    /// metadata; when every record is the only one with an identifier new to
    /// `base`, one entry is added per record.
    pub open spec fn replayed<N: Fn(&Vec<u32>) -> Vec<u32>>(
        base: &HnswIndex,
        index: &HnswIndex,
        records: Seq<StoredVector>,
        normalize: &N,
    ) -> bool {
        &&& index.spec_dimension() == base.spec_dimension()
        &&& index.spec_metric() == base.spec_metric()
        &&& index.spec_config() == base.spec_config()
        &&& index.count() >= base.count()
        &&& forall|p: int|
            0 <= p < base.count() ==> {
                &&& (#[trigger] index.entry(p)).id@ == base.entry(p).id@
                &&& index.entry(p).vector@ == base.entry(p).vector@
                &&& index.entry(p).metadata == base.entry(p).metadata
            }
        &&& forall|id: Seq<char>|
            #[trigger] index.ids().contains(id) <==> (base.ids().contains(id) || exists|k: int|
                0 <= k < records.len() && records[k].id@ == id)
        &&& forall|k: int| 0 <= k < records.len() ==> #[trigger] index.lookup(records[k].id@) is Some
        &&& forall|k: int|
            0 <= k < records.len() && sole_record(records, k) ==> #[trigger] index.is_deleted(records[k].id@)
                == records[k].head.deleted
        &&& forall|k: int|
            0 <= k < records.len() && sole_record(records, k) && !base.ids().contains(records[k].id@) ==> {
                &&& (#[trigger] index.entry(index.lookup(records[k].id@)->0)).metadata == records[k].metadata
                &&& stored_form(
                    index.spec_metric(),
                    normalize,
                    records[k].vector@,
                    index.entry(index.lookup(records[k].id@)->0).vector@,
                )
                &&& !records[k].head.deleted ==> index.visible(records[k].id@) == Some(
                    (index.entry(index.lookup(records[k].id@)->0).vector@, records[k].metadata),
                )
            }
        &&& (forall|k: int|
            0 <= k < records.len() ==> sole_record(records, k) && !base.ids().contains(#[trigger] records[k].id@))
            ==> index.count() == base.count() + records.len()
    }

    proof fn lemma_snapshot_meta(x: &HnswIndex, y: &HnswIndex)
        requires
            x.snapshot_bytes() == y.snapshot_bytes(),
            x.dimension <= u32::MAX,
            y.dimension <= u32::MAX,
        ensures
            x.dimension == y.dimension,
            x.metric == y.metric,
    {
        HnswIndex::lemma_snapshot_header(x);
        HnswIndex::lemma_snapshot_header(y);
        let mx = meta_record(IndexMeta { dimension: x.dimension, metric: x.metric, config: x.config });
        let my = meta_record(IndexMeta { dimension: y.dimension, metric: y.metric, config: y.config });
        assert(mx == my);
        assert(mx.subrange(2, 6) =~= be32(x.dimension as u32));
        assert(my.subrange(2, 6) =~= be32(y.dimension as u32));
        crate::codec::lemma_be32_round_trip(x.dimension as u32);
        crate::codec::lemma_be32_round_trip(y.dimension as u32);
        assert(mx[1] == my[1]);
    }

    proof fn lemma_replay_step<N: Fn(&Vec<u32>) -> Vec<u32>>(
        base: &HnswIndex,
        before: &HnswIndex,
        mid: &HnswIndex,
        after: &HnswIndex,
        records: Seq<StoredVector>,
        order: Seq<usize>,
        t: int,
        found: bool,
        v: Vec<u32>,
        normalize: &N,
        allfresh: bool,
    )
        requires
            0 <= t < records.len(),
            order.len() == records.len(),
            order.no_duplicates(),
            forall|i: int| 0 <= i < order.len() ==> (#[trigger] order[i] as int) < records.len(),
            base.wf(),
            before.wf(),
            before.spec_dimension() == base.spec_dimension(),
            before.spec_metric() == base.spec_metric(),
            before.spec_config() == base.spec_config(),
            before.count() >= base.count(),
            allfresh == (forall|k: int|
                0 <= k < records.len() ==> sole_record(records, k) && !base.ids().contains(#[trigger] records[k].id@)),
            allfresh ==> before.count() == base.count() + t,
            forall|p: int|
                0 <= p < base.count() ==> {
                    &&& (#[trigger] before.entry(p)).id@ == base.entry(p).id@
                    &&& before.entry(p).vector@ == base.entry(p).vector@
                    &&& before.entry(p).metadata == base.entry(p).metadata
                },
            forall|id: Seq<char>|
                #[trigger] before.ids().contains(id) <==> (base.ids().contains(id) || exists|p: int|
                    0 <= p < t && records[order[p] as int].id@ == id),
            forall|p: int| 0 <= p < t ==> #[trigger] before.lookup(records[order[p] as int].id@) is Some,
            forall|p: int|
                0 <= p < t && sole_record(records, order[p] as int) ==> #[trigger] before.is_deleted(
                    records[order[p] as int].id@,
                ) == records[order[p] as int].head.deleted,
            forall|p: int|
                0 <= p < t && sole_record(records, order[p] as int) && !base.ids().contains(
                    records[order[p] as int].id@,
                ) ==> {
                    &&& (#[trigger] before.entry(before.lookup(records[order[p] as int].id@)->0)).metadata
                        == records[order[p] as int].metadata
                    &&& stored_form(
                        before.spec_metric(),
                        normalize,
                        records[order[p] as int].vector@,
                        before.entry(before.lookup(records[order[p] as int].id@)->0).vector@,
                    )
                },
            found == (before.lookup(records[order[t] as int].id@) is Some),
            found ==> *mid == *before,
            !found ==> {
                &&& HnswIndex::inserted(
                    before,
                    mid,
                    records[order[t] as int].id@,
                    &v,
                    records[order[t] as int].metadata,
                    records[order[t] as int].head.level as usize,
                    normalize,
                )
                &&& v@ == records[order[t] as int].vector@
                &&& mid.wf()
                &&& mid.spec_dimension() == before.spec_dimension()
                &&& mid.spec_metric() == before.spec_metric()
                &&& mid.spec_config() == before.spec_config()
            },
            after.wf(),
            after.count() == mid.count(),
            after.spec_dimension() == mid.spec_dimension(),
            after.spec_metric() == mid.spec_metric(),
            after.spec_config() == mid.spec_config(),
            forall|other: Seq<char>| #[trigger] after.lookup(other) == mid.lookup(other),
            forall|other: Seq<char>|
                other != records[order[t] as int].id@ ==> #[trigger] after.is_deleted(other) == mid.is_deleted(other),
            forall|q: int|
                0 <= q < mid.count() && mid.entry(q).id@ != records[order[t] as int].id@ ==> #[trigger] after.entry(q)
                    == mid.entry(q),
            forall|q: int|
                0 <= q < mid.count() && mid.entry(q).id@ == records[order[t] as int].id@ ==> #[trigger] after.entry(q)
                    == (VectorEntry { deleted: records[order[t] as int].head.deleted, ..mid.entry(q) }),
            mid.lookup(records[order[t] as int].id@) is Some ==> after.is_deleted(records[order[t] as int].id@)
                == records[order[t] as int].head.deleted,
        ensures
            after.wf(),
            after.spec_dimension() == base.spec_dimension(),
            after.spec_metric() == base.spec_metric(),
            after.spec_config() == base.spec_config(),
            after.count() >= base.count(),
            allfresh == (forall|k: int|
                0 <= k < records.len() ==> sole_record(records, k) && !base.ids().contains(#[trigger] records[k].id@)),
            allfresh ==> after.count() == base.count() + t + 1,
            forall|p: int|
                0 <= p < base.count() ==> {
                    &&& (#[trigger] after.entry(p)).id@ == base.entry(p).id@
                    &&& after.entry(p).vector@ == base.entry(p).vector@
                    &&& after.entry(p).metadata == base.entry(p).metadata
                },
            forall|id: Seq<char>|
                #[trigger] after.ids().contains(id) <==> (base.ids().contains(id) || exists|p: int|
                    0 <= p < t + 1 && records[order[p] as int].id@ == id),
            forall|p: int| 0 <= p < t + 1 ==> #[trigger] after.lookup(records[order[p] as int].id@) is Some,
            forall|p: int|
                0 <= p < t + 1 && sole_record(records, order[p] as int) ==> #[trigger] after.is_deleted(
                    records[order[p] as int].id@,
                ) == records[order[p] as int].head.deleted,
            forall|p: int|
                0 <= p < t + 1 && sole_record(records, order[p] as int) && !base.ids().contains(
                    records[order[p] as int].id@,
                ) ==> {
                    &&& (#[trigger] after.entry(after.lookup(records[order[p] as int].id@)->0)).metadata
                        == records[order[p] as int].metadata
                    &&& stored_form(
                        after.spec_metric(),
                        normalize,
                        records[order[p] as int].vector@,
                        after.entry(after.lookup(records[order[p] as int].id@)->0).vector@,
                    )
                },
    {
        let k = order[t] as int;
        let idv = records[k].id@;
        assert(mid.lookup(idv) is Some);
        assert forall|other: Seq<char>| other != idv implies #[trigger] mid.lookup(other) == before.lookup(other) by {}
        // entries of the base keep identifier, vector and metadata
        assert forall|p: int| 0 <= p < base.count() implies {
            &&& (#[trigger] after.entry(p)).id@ == base.entry(p).id@
            &&& after.entry(p).vector@ == base.entry(p).vector@
            &&& after.entry(p).metadata == base.entry(p).metadata
        } by {
            assert(before.entry(p).id@ == base.entry(p).id@);
            if !found {
                assert(mid.entry(p) == before.entry(p));
            }
            if mid.entry(p).id@ != idv {
                assert(after.entry(p) == mid.entry(p));
            } else {
                assert(after.entry(p) == (VectorEntry { deleted: records[k].head.deleted, ..mid.entry(p) }));
            }
        }
        assert forall|id: Seq<char>|
            #[trigger] after.ids().contains(id) <==> (base.ids().contains(id) || exists|p: int|
                0 <= p < t + 1 && records[order[p] as int].id@ == id) by {
            assert(after.lookup(id) == mid.lookup(id));
            if id != idv {
                assert(mid.lookup(id) == before.lookup(id));
                assert(before.ids().contains(id) == (before.lookup(id) is Some));
                if exists|p: int| 0 <= p < t + 1 && records[order[p] as int].id@ == id {
                    let p = choose|p: int| 0 <= p < t + 1 && records[order[p] as int].id@ == id;
                    assert(p < t);
                }
            } else {
                assert(records[order[t] as int].id@ == id);
            }
        }
        assert forall|p: int| 0 <= p < t + 1 implies #[trigger] after.lookup(records[order[p] as int].id@) is Some by {
            let o = records[order[p] as int].id@;
            if o != idv {
                assert(before.lookup(o) is Some);
            }
        }
        assert forall|p: int|
            0 <= p < t + 1 && sole_record(records, order[p] as int) implies #[trigger] after.is_deleted(
            records[order[p] as int].id@,
        ) == records[order[p] as int].head.deleted by {
            if p < t {
                assert(order[p] != order[t]);
                let o = records[order[p] as int].id@;
                assert(o != idv);
                assert(mid.is_deleted(o) == before.is_deleted(o)) by {
                    if !found {
                    }
                }
            }
        }
        assert forall|p: int|
            0 <= p < t + 1 && sole_record(records, order[p] as int) && !base.ids().contains(
                records[order[p] as int].id@,
            ) implies {
            &&& (#[trigger] after.entry(after.lookup(records[order[p] as int].id@)->0)).metadata
                == records[order[p] as int].metadata
            &&& stored_form(
                after.spec_metric(),
                normalize,
                records[order[p] as int].vector@,
                after.entry(after.lookup(records[order[p] as int].id@)->0).vector@,
            )
        } by {
            let o = records[order[p] as int].id@;
            if p < t {
                assert(order[p] != order[t]);
                assert(o != idv);
                let q = before.lookup(o)->0;
                before.lemma_lookup_some(o);
                assert(mid.lookup(o) == before.lookup(o));
                if !found {
                    assert(mid.entry(q) == before.entry(q));
                }
                assert(mid.entry(q).id@ == o);
                assert(after.entry(q) == mid.entry(q));
            } else {
                assert(!found) by {
                    if found {
                        assert(before.ids().contains(idv));
                        let p2 = choose|p2: int| 0 <= p2 < t && records[order[p2] as int].id@ == idv;
                        assert(order[p2] != order[t]);
                    }
                }
                let q = before.count();
                assert(mid.lookup(idv) == Some(q));
                mid.lemma_lookup_some(idv);
                assert(after.entry(q) == (VectorEntry { deleted: records[k].head.deleted, ..mid.entry(q) }));
            }
        }
        if allfresh {
            assert(sole_record(records, k) && !base.ids().contains(records[k].id@));
            assert(!found) by {
                if found {
                    assert(before.ids().contains(idv));
                    let p2 = choose|p2: int| 0 <= p2 < t && records[order[p2] as int].id@ == idv;
                    assert(order[p2] != order[t]);
                }
            }
        }
    }

    proof fn lemma_replay_done<N: Fn(&Vec<u32>) -> Vec<u32>>(
        base: &HnswIndex,
        after: &HnswIndex,
        records: Seq<StoredVector>,
        order: Seq<usize>,
        normalize: &N,
    )
        requires
            order.len() == records.len(),
            records.len() <= usize::MAX,
            forall|kk: int| 0 <= kk < records.len() ==> #[trigger] order.contains(kk as usize),
            forall|i: int| 0 <= i < order.len() ==> (#[trigger] order[i] as int) < records.len(),
            after.spec_dimension() == base.spec_dimension(),
            after.spec_metric() == base.spec_metric(),
            after.spec_config() == base.spec_config(),
            after.count() >= base.count(),
            (forall|k: int|
                0 <= k < records.len() ==> sole_record(records, k) && !base.ids().contains(#[trigger] records[k].id@))
                ==> after.count() == base.count() + records.len(),
            forall|p: int|
                0 <= p < base.count() ==> {
                    &&& (#[trigger] after.entry(p)).id@ == base.entry(p).id@
                    &&& after.entry(p).vector@ == base.entry(p).vector@
                    &&& after.entry(p).metadata == base.entry(p).metadata
                },
            forall|id: Seq<char>|
                #[trigger] after.ids().contains(id) <==> (base.ids().contains(id) || exists|p: int|
                    0 <= p < records.len() && records[order[p] as int].id@ == id),
            forall|p: int| 0 <= p < records.len() ==> #[trigger] after.lookup(records[order[p] as int].id@) is Some,
            forall|p: int|
                0 <= p < records.len() && sole_record(records, order[p] as int) ==> #[trigger] after.is_deleted(
                    records[order[p] as int].id@,
                ) == records[order[p] as int].head.deleted,
            forall|p: int|
                0 <= p < records.len() && sole_record(records, order[p] as int) && !base.ids().contains(
                    records[order[p] as int].id@,
                ) ==> {
                    &&& (#[trigger] after.entry(after.lookup(records[order[p] as int].id@)->0)).metadata
                        == records[order[p] as int].metadata
                    &&& stored_form(
                        after.spec_metric(),
                        normalize,
                        records[order[p] as int].vector@,
                        after.entry(after.lookup(records[order[p] as int].id@)->0).vector@,
                    )
                },
        ensures
            HnswIndex::replayed(base, after, records, normalize),
    {
        assert forall|id: Seq<char>|
            #[trigger] after.ids().contains(id) <==> (base.ids().contains(id) || exists|k: int|
                0 <= k < records.len() && records[k].id@ == id) by {
            if exists|k: int| 0 <= k < records.len() && records[k].id@ == id {
                let k = choose|k: int| 0 <= k < records.len() && records[k].id@ == id;
                assert((k as usize) as int == k);
                assert(order.contains(k as usize));
                let p = choose|p: int| 0 <= p < order.len() && order[p] == k as usize;
                assert(records[order[p] as int].id@ == id);
            }
            if exists|p: int| 0 <= p < records.len() && records[order[p] as int].id@ == id {
                let p = choose|p: int| 0 <= p < records.len() && records[order[p] as int].id@ == id;
                assert(0 <= order[p] as int && (order[p] as int) < records.len());
            }
        }
        assert forall|k: int| 0 <= k < records.len() implies #[trigger] after.lookup(records[k].id@) is Some by {
            assert((k as usize) as int == k);
            assert(order.contains(k as usize));
            let p = choose|p: int| 0 <= p < order.len() && order[p] == k as usize;
            assert(after.lookup(records[order[p] as int].id@) is Some);
        }
        assert forall|k: int|
            0 <= k < records.len() && sole_record(records, k) implies #[trigger] after.is_deleted(records[k].id@)
            == records[k].head.deleted by {
            assert(order.contains(k as usize));
            let p = choose|p: int| 0 <= p < order.len() && order[p] == k as usize;
            assert(after.is_deleted(records[order[p] as int].id@) == records[order[p] as int].head.deleted);
        }
        assert forall|k: int|
            0 <= k < records.len() && sole_record(records, k) && !base.ids().contains(records[k].id@) implies {
            &&& (#[trigger] after.entry(after.lookup(records[k].id@)->0)).metadata == records[k].metadata
            &&& stored_form(
                after.spec_metric(),
                normalize,
                records[k].vector@,
                after.entry(after.lookup(records[k].id@)->0).vector@,
            )
            &&& !records[k].head.deleted ==> after.visible(records[k].id@) == Some(
                (after.entry(after.lookup(records[k].id@)->0).vector@, records[k].metadata),
            )
        } by {
            assert((k as usize) as int == k);
            assert(order.contains(k as usize));
            let p = choose|p: int| 0 <= p < order.len() && order[p] == k as usize;
            assert(after.entry(after.lookup(records[order[p] as int].id@)->0).metadata == records[order[p] as int].metadata);
            assert(after.lookup(records[k].id@) is Some);
            assert(after.is_deleted(records[k].id@) == records[k].head.deleted);
        }
    }

    /// Reopens an index from what its store holds: the index record, the last
    /// snapshot if any, and the vector records. A snapshot that restores to an
    /// index of the recorded dimension and metric is installed; otherwise the
    /// index starts empty with the recorded parameters. Then the records are
    /// replayed in insertion order: a record whose identifier is not in the
    /// index yet is inserted on its recorded layer, and every record sets the
    /// soft-delete flag of its identifier.
    #[verifier::spinoff_prover]
    #[verifier::rlimit(100)]
    pub fn recover<D: Fn(&Vec<u32>, &Vec<u32>) -> u32, N: Fn(&Vec<u32>) -> Vec<u32>>(
        meta: IndexMeta,
        snapshot: Option<Vec<u8>>,
        records: Vec<StoredVector>,
        dist: &D,
        normalize: &N,
    ) -> (r: Result<HnswIndex, VectorError>)
        requires
            kernel_total(dist),
            normalizer_ok(normalize),
        ensures
            r matches Ok(index) ==> index.wf() && index.spec_dimension() == meta.dimension && index.spec_metric()
                == meta.metric,
            r matches Ok(index) ==> exists|base: HnswIndex|
                HnswIndex::recovery_base(&base, meta, snapshot) && #[trigger] HnswIndex::replayed(
                    &base,
                    &index,
                    records@,
                    normalize,
                ),
            snapshot is None ==> (r matches Ok(index) ==> forall|id: Seq<char>|
                #[trigger] index.ids().contains(id) <==> exists|k: int|
                    0 <= k < records@.len() && records@[k].id@ == id),
            snapshot is None && (forall|k: int| 0 <= k < records@.len() ==> #[trigger] sole_record(records@, k))
                ==> (r matches Ok(index) ==> index.count() == records@.len()),
            (forall|k: int| 0 <= k < records@.len() ==> #[trigger] records@[k].vector@.len() == meta.dimension)
                ==> r is Ok,
            r is Err ==> r matches Err(VectorError::DimensionMismatch { .. }),
    {
        let fresh = HnswIndex::with_config(meta.dimension, meta.metric, meta.config);
        let ghost fresh_v = fresh;
        let mut index = match snapshot {
            Some(bytes) => match HnswIndex::restore(bytes.as_slice(), dist) {
                Ok(restored) => {
                    if restored.dimension == meta.dimension && (match (restored.metric, meta.metric) {
                        (DistanceMetric::Cosine, DistanceMetric::Cosine) => true,
                        (DistanceMetric::Euclidean, DistanceMetric::Euclidean) => true,
                        (DistanceMetric::DotProduct, DistanceMetric::DotProduct) => true,
                        _ => false,
                    }) {
                        restored
                    } else {
                        proof {
                            if exists|x: HnswIndex|
                                x.wf() && x.snapshot_fits() && #[trigger] x.snapshot_bytes() == bytes@
                                    && x.spec_dimension() == meta.dimension && x.spec_metric() == meta.metric {
                                let x = choose|x: HnswIndex|
                                    x.wf() && x.snapshot_fits() && #[trigger] x.snapshot_bytes() == bytes@
                                        && x.spec_dimension() == meta.dimension && x.spec_metric() == meta.metric;
                                HnswIndex::lemma_snapshot_meta(&x, &restored);
                            }
                        }
                        fresh
                    }
                },
                Err(_) => fresh,
            },
            None => fresh,
        };
        let ghost base = index;
        proof {
            assert(fresh_v.ids() =~= Set::empty()) by {
                assert forall|id: Seq<char>| !fresh_v.ids().contains(id) by {
                    fresh_v.lemma_lookup_some(id);
                }
            }
            assert(HnswIndex::recovery_base(&base, meta, snapshot));
        }
        let mut heads: Vec<RecordHead> = Vec::new();
        let mut h: usize = 0;
        while h < records.len()
            invariant
                h <= records@.len(),
                heads@.len() == h,
                forall|k: int| 0 <= k < h ==> #[trigger] heads@[k] == records@[k].head,
            decreases records@.len() - h,
        {
            heads.push(records[h].head);
            h += 1;
        }
        let order = replay_order(&heads);
        let n = records.len();
        let ghost allfresh = forall|k: int|
            0 <= k < records@.len() ==> sole_record(records@, k) && !base.ids().contains(#[trigger] records@[k].id@);
        let mut t: usize = 0;
        while t < n
            invariant
                n == records@.len(),
                order@.len() == n,
                order@.no_duplicates(),
                forall|i: int| 0 <= i < n ==> (#[trigger] order@[i] as int) < n,
                t <= n,
                index.wf(),
                base.wf(),
                kernel_total(dist),
                normalizer_ok(normalize),
                index.spec_dimension() == base.spec_dimension(),
                index.spec_metric() == base.spec_metric(),
                index.spec_config() == base.spec_config(),
                base.spec_dimension() == meta.dimension,
                index.count() >= base.count(),
                allfresh == (forall|k: int|
                    0 <= k < records@.len() ==> sole_record(records@, k) && !base.ids().contains(
                        #[trigger] records@[k].id@,
                    )),
                allfresh ==> index.count() == base.count() + t,
                forall|p: int|
                    0 <= p < base.count() ==> {
                        &&& (#[trigger] index.entry(p)).id@ == base.entry(p).id@
                        &&& index.entry(p).vector@ == base.entry(p).vector@
                        &&& index.entry(p).metadata == base.entry(p).metadata
                    },
                forall|id: Seq<char>|
                    #[trigger] index.ids().contains(id) <==> (base.ids().contains(id) || exists|p: int|
                        0 <= p < t && records@[order@[p] as int].id@ == id),
                forall|p: int| 0 <= p < t ==> #[trigger] index.lookup(records@[order@[p] as int].id@) is Some,
                forall|p: int|
                    0 <= p < t && sole_record(records@, order@[p] as int) ==> #[trigger] index.is_deleted(
                        records@[order@[p] as int].id@,
                    ) == records@[order@[p] as int].head.deleted,
                forall|p: int|
                    0 <= p < t && sole_record(records@, order@[p] as int) && !base.ids().contains(
                        records@[order@[p] as int].id@,
                    ) ==> {
                        &&& (#[trigger] index.entry(index.lookup(records@[order@[p] as int].id@)->0)).metadata
                            == records@[order@[p] as int].metadata
                        &&& stored_form(
                            index.spec_metric(),
                            normalize,
                            records@[order@[p] as int].vector@,
                            index.entry(index.lookup(records@[order@[p] as int].id@)->0).vector@,
                        )
                    },
            decreases n - t,
        {
            let k = order[t];
            let rec = &records[k];
            let ghost before = index;
            let ghost idv = rec.id@;
            let found = index.find(rec.id.as_str()).is_some();
            let vcopy = copy_bits(&rec.vector);
            let ghost vg = vcopy;
            if !found {
                let ins = index.insert(
                    rec.id.clone(),
                    vcopy,
                    copy_text(&rec.metadata),
                    rec.head.level as usize,
                    dist,
                    normalize,
                );
                match ins {
                    Ok(()) => {},
                    Err(e) => {
                        return Err(e);
                    },
                }
            }
            let ghost mid = index;
            let _ = index.set_deleted(rec.id.as_str(), rec.head.deleted);
            proof {
                HnswIndex::lemma_replay_step(
                    &base, &before, &mid, &index, records@, order@, t as int, found, vg, normalize, allfresh,
                );
            }
            t += 1;
        }
        proof {
            HnswIndex::lemma_replay_done(&base, &index, records@, order@, normalize);
            assert(HnswIndex::replayed(&base, &index, records@, normalize));
            if snapshot is None {
                assert(base == fresh_v);
                assert forall|id: Seq<char>|
                    #[trigger] index.ids().contains(id) <==> exists|k: int|
                        0 <= k < records@.len() && records@[k].id@ == id by {
                    assert(!base.ids().contains(id));
                }
                if forall|k: int| 0 <= k < records@.len() ==> #[trigger] sole_record(records@, k) {
                    assert forall|k: int| 0 <= k < records@.len() implies sole_record(records@, k) && !base.ids().contains(
                        #[trigger] records@[k].id@,
                    ) by {
                        assert(sole_record(records@, k));
                    }
                }
            }
        }
        Ok(index)
    }

    /// Best-first search on one layer, starting from `entry_points`: returns up
    /// to `ef` of the nearest nodes found (more only when more entry points
    /// were given), nearest first.
    fn search_layer<D: Fn(&Vec<u32>, &Vec<u32>) -> u32>(
        &self,
        q: &Vec<u32>,
        entry_points: &Vec<usize>,
        ef: usize,
        layer: usize,
        dist: &D,
        skip: usize,
    ) -> (w: Vec<Candidate>)
        requires
            self.graph_wf(),
            kernel_total(dist),
            forall|i: int| 0 <= i < entry_points@.len() ==> #[trigger] entry_points@[i] != skip,
            forall|i: int|
                0 <= i < entry_points@.len() ==> {
                    &&& (#[trigger] entry_points@[i] as int) < self.nodes@.len()
                    &&& self.nodes@[entry_points@[i] as int].level >= layer
                },
        ensures
            forall|i: int| 0 <= i < w@.len() ==> self.scored(q, layer as int, dist, #[trigger] w@[i]),
            sorted_by_distance(w@),
            distinct_nodes(w@),
            entry_points@.len() > 0 ==> w@.len() > 0,
            forall|i: int| 0 <= i < w@.len() ==> (#[trigger] w@[i]).node != skip,
            w@.len() <= (if ef > entry_points@.len() { ef as int } else { entry_points@.len() as int }),
            exists|vd: Map<usize, u32>|
                #[trigger] keeps_nearest(w@, vd, ef) && records_distances(w@, vd) && (forall|x: usize|
                    vd.contains_key(x) ==> (x as int) < self.nodes@.len() && dist.ensures(
                        (q, &self.entries@[x as int].vector),
                        vd[x],
                    )) && (forall|i: int| 0 <= i < entry_points@.len() ==> vd.contains_key(#[trigger] entry_points@[i]))
                    && (forall|k: int, nb: usize|
                    0 <= k < w@.len() && #[trigger] self.linked(w@[k].node as int, layer as int, nb) && nb != skip
                        ==> vd.contains_key(nb)),
    {
        let n = self.nodes.len();
        let mut visited: HashSet<usize> = HashSet::new();
        let mut cands: Vec<Candidate> = Vec::new();
        let mut w: Vec<Candidate> = Vec::new();
        let ghost mut vd: Map<usize, u32> = Map::empty();
        let mut i: usize = 0;
        while i < entry_points.len()
            invariant
                self.graph_wf(),
                kernel_total(dist),
                forall|k: int| 0 <= k < entry_points@.len() ==> #[trigger] entry_points@[k] != skip,
                forall|k: int|
                    0 <= k < entry_points@.len() ==> {
                        &&& (#[trigger] entry_points@[k] as int) < self.nodes@.len()
                        &&& self.nodes@[entry_points@[k] as int].level >= layer
                    },
                i <= entry_points@.len(),
                n == self.nodes@.len(),
                visited@.finite(),
                forall|x: usize| #[trigger] visited@.contains(x) ==> x < n,
                forall|k: int| 0 <= k < w@.len() ==> self.scored(q, layer as int, dist, #[trigger] w@[k]),
                forall|k: int| 0 <= k < cands@.len() ==> self.scored(q, layer as int, dist, #[trigger] cands@[k]),
                forall|k: int| 0 <= k < w@.len() ==> visited@.contains(#[trigger] w@[k].node),
                sorted_by_distance(w@),
                distinct_nodes(w@),
                forall|k: int| 0 <= k < w@.len() ==> (#[trigger] w@[k]).node != skip,
                forall|k: int| 0 <= k < cands@.len() ==> (#[trigger] cands@[k]).node != skip,
                forall|x: usize| #[trigger] visited@.contains(x) ==> w@.len() > 0,
                forall|k: int| 0 <= k < i ==> visited@.contains(#[trigger] entry_points@[k]),
                cands@.len() > 0 ==> w@.len() > 0,
                visited@ == vd.dom(),
                forall|x: usize|
                    vd.contains_key(x) ==> (x as int) < self.nodes@.len() && dist.ensures(
                        (q, &self.entries@[x as int].vector),
                        vd[x],
                    ),
                records_distances(w@, vd),
                forall|x: usize| #[trigger] vd.contains_key(x) ==> nodes_of(w@).contains(x),
                w@.len() <= i,
                records_distances(cands@, vd),
                forall|y: usize| #[trigger] nodes_of(w@).contains(y) ==> nodes_of(cands@).contains(y),
            decreases entry_points@.len() - i,
        {
            let ep = entry_points[i];
            if !visited.contains(&ep) {
                visited.insert(ep);
                let d = dist(q, &self.entries[ep].vector);
                let c = Candidate { distance: d, node: ep };
                let ghost cands_before = cands@;
                cands.push(c);
                let ghost before = w@;
                let p = insert_sorted(&mut w, c);
                assert forall|a: int, b: int| 0 <= a < b < w@.len() implies w@[a].node != w@[b].node by {
                    if a != p && b != p {
                        let a0 = if a < p { a } else { a - 1 };
                        let b0 = if b < p { b } else { b - 1 };
                        assert(w@[a] == before[a0]);
                        assert(w@[b] == before[b0]);
                    } else if a == p {
                        let b0 = b - 1;
                        assert(w@[b] == before[b0]);
                        assert(visited@.contains(before[b0].node));
                    } else {
                        let a0 = if a < p { a } else { a - 1 };
                        assert(w@[a] == before[a0]);
                    }
                }
                proof {
                    let vold = vd;
                    vd = vd.insert(ep, d);
                    assert(visited@ =~= vd.dom());
                    assert(nodes_of(cands@) =~= nodes_of(cands_before).push(ep));
                    assert forall|k: int| 0 <= k < cands@.len() implies vd.contains_key(#[trigger] cands@[k].node) && vd[cands@[k].node] == cands@[k].distance by {
                        if k < cands_before.len() {
                            assert(cands@[k] == cands_before[k]);
                            assert(vold.contains_key(cands_before[k].node));
                        }
                    }
                    assert forall|y: usize| #[trigger] nodes_of(w@).contains(y) implies nodes_of(cands@).contains(y) by {
                        lemma_insert_contains(nodes_of(before), p as int, ep);
                        assert(nodes_of(w@) =~= nodes_of(before).insert(p as int, ep));
                        if y == ep {
                            assert(nodes_of(cands@)[cands_before.len() as int] == ep);
                        } else {
                            assert(nodes_of(before).contains(y));
                            assert(nodes_of(cands_before).contains(y));
                            let q = choose|q: int| 0 <= q < cands_before.len() && nodes_of(cands_before)[q] == y;
                            assert(nodes_of(cands@)[q] == y);
                        }
                    }
                    assert(nodes_of(w@) =~= nodes_of(before).insert(p as int, ep));
                    lemma_insert_contains(nodes_of(before), p as int, ep);
                    assert forall|k: int| 0 <= k < w@.len() implies vd.contains_key(#[trigger] w@[k].node) && vd[w@[k].node] == w@[k].distance by {
                        if k < p {
                            assert(w@[k] == before[k]);
                            assert(vold.contains_key(before[k].node));
                        } else if k > p {
                            assert(w@[k] == before[k - 1]);
                            assert(vold.contains_key(before[k - 1].node));
                        }
                    }
                }
                assert forall|k: int| 0 <= k < w@.len() implies visited@.contains(#[trigger] w@[k].node) by {
                    if k < p {
                        assert(w@[k] == before[k]);
                    } else if k > p {
                        assert(w@[k] == before[k - 1]);
                    }
                }
            }
            i += 1;
        }
        proof {
            assert(keeps_nearest(w@, vd, ef));
            lemma_bounded_set_len(visited@, n);
            if entry_points@.len() > 0 {
                assert(visited@.contains(entry_points@[0]));
            }
        }
        while cands.len() > 0
            invariant
                self.graph_wf(),
                kernel_total(dist),
                n == self.nodes@.len(),
                visited@.finite(),
                forall|x: usize| #[trigger] visited@.contains(x) ==> x < n,
                visited@.len() <= n,
                forall|k: int| 0 <= k < w@.len() ==> self.scored(q, layer as int, dist, #[trigger] w@[k]),
                forall|k: int| 0 <= k < cands@.len() ==> self.scored(q, layer as int, dist, #[trigger] cands@[k]),
                forall|k: int| 0 <= k < w@.len() ==> visited@.contains(#[trigger] w@[k].node),
                sorted_by_distance(w@),
                distinct_nodes(w@),
                forall|k: int| 0 <= k < w@.len() ==> (#[trigger] w@[k]).node != skip,
                forall|k: int| 0 <= k < cands@.len() ==> (#[trigger] cands@[k]).node != skip,
                entry_points@.len() > 0 ==> w@.len() > 0,
                cands@.len() > 0 ==> w@.len() > 0,
                visited@ == vd.dom(),
                forall|x: usize|
                    vd.contains_key(x) ==> (x as int) < self.nodes@.len() && dist.ensures(
                        (q, &self.entries@[x as int].vector),
                        vd[x],
                    ),
                records_distances(w@, vd),
                keeps_nearest(w@, vd, ef),
                forall|k: int| 0 <= k < entry_points@.len() ==> vd.contains_key(#[trigger] entry_points@[k]),
                w@.len() <= (if ef > entry_points@.len() { ef as int } else { entry_points@.len() as int }),
                records_distances(cands@, vd),
                forall|y: usize|
                    #[trigger] nodes_of(w@).contains(y) ==> nodes_of(cands@).contains(y) || self.expanded(
                        y,
                        layer as int,
                        skip,
                        visited@,
                    ),
            ensures
                forall|y: usize| #[trigger] nodes_of(w@).contains(y) ==> self.expanded(y, layer as int, skip, visited@),
                self.graph_wf(),
                visited@ == vd.dom(),
                forall|x: usize|
                    vd.contains_key(x) ==> (x as int) < self.nodes@.len() && dist.ensures(
                        (q, &self.entries@[x as int].vector),
                        vd[x],
                    ),
                records_distances(w@, vd),
                keeps_nearest(w@, vd, ef),
                forall|k: int| 0 <= k < entry_points@.len() ==> vd.contains_key(#[trigger] entry_points@[k]),
                w@.len() <= (if ef > entry_points@.len() { ef as int } else { entry_points@.len() as int }),
                forall|k: int| 0 <= k < w@.len() ==> self.scored(q, layer as int, dist, #[trigger] w@[k]),
                sorted_by_distance(w@),
                distinct_nodes(w@),
                forall|k: int| 0 <= k < w@.len() ==> (#[trigger] w@[k]).node != skip,
                entry_points@.len() > 0 ==> w@.len() > 0,
            decreases (n - visited@.len()) + cands@.len(),
        {
            let ci = nearest_index(&cands);
            let ghost cands_before = cands@;
            let c = cands.remove(ci);
            proof {
                assert(nodes_of(cands@) =~= nodes_of(cands_before).remove(ci as int));
                lemma_remove_contains(nodes_of(cands_before), ci as int);
                assert forall|k: int| 0 <= k < cands@.len() implies vd.contains_key(#[trigger] cands@[k].node) && vd[cands@[k].node] == cands@[k].distance by {
                    if k < ci {
                        assert(cands@[k] == cands_before[k]);
                    } else {
                        assert(cands@[k] == cands_before[k + 1]);
                    }
                }
            }
            let worst = w[w.len() - 1];
            if w.len() >= ef && order_key(c.distance) > order_key(worst.distance) {
                proof {
                    assert forall|y: usize| #[trigger] nodes_of(w@).contains(y) implies self.expanded(y, layer as int, skip, visited@) by {
                        let kw = choose|kw: int| 0 <= kw < w@.len() && nodes_of(w@)[kw] == y;
                        assert(w@[kw].node == y);
                        assert(order_key_spec(w@[kw].distance) <= order_key_spec(worst.distance));
                        if y == c.node {
                            assert(vd[y] == c.distance);
                        } else if nodes_of(cands_before).contains(y) {
                            let jc = choose|jc: int| 0 <= jc < cands_before.len() && nodes_of(cands_before)[jc] == y;
                            assert(cands_before[jc].node == y);
                            assert(order_key_spec(cands_before[ci as int].distance) <= order_key_spec(cands_before[jc].distance));
                            assert(vd[y] == cands_before[jc].distance);
                        }
                    }
                }
                break;
            }
            if layer < self.nodes[c.node].connections.len() {
                let nbrs = &self.nodes[c.node].connections[layer];
                let ghost start = (n - visited@.len()) + cands@.len();
                let mut j: usize = 0;
                while j < nbrs.len()
                    invariant
                        self.graph_wf(),
                        kernel_total(dist),
                        n == self.nodes@.len(),
                        (c.node as int) < n,
                        layer < self.nodes@[c.node as int].connections@.len(),
                        nbrs@ == self.links(c.node as int, layer as int),
                        j <= nbrs@.len(),
                        visited@.finite(),
                        forall|x: usize| #[trigger] visited@.contains(x) ==> x < n,
                        visited@.len() <= n,
                        forall|k: int| 0 <= k < w@.len() ==> self.scored(q, layer as int, dist, #[trigger] w@[k]),
                        forall|k: int| 0 <= k < cands@.len() ==> self.scored(q, layer as int, dist, #[trigger] cands@[k]),
                        forall|k: int| 0 <= k < w@.len() ==> visited@.contains(#[trigger] w@[k].node),
                        sorted_by_distance(w@),
                        distinct_nodes(w@),
                        forall|k: int| 0 <= k < w@.len() ==> (#[trigger] w@[k]).node != skip,
                        forall|k: int| 0 <= k < cands@.len() ==> (#[trigger] cands@[k]).node != skip,
                forall|k: int| 0 <= k < w@.len() ==> (#[trigger] w@[k]).node != skip,
                forall|k: int| 0 <= k < cands@.len() ==> (#[trigger] cands@[k]).node != skip,
                        w@.len() > 0,
                        (n - visited@.len()) + cands@.len() <= start,
                        visited@ == vd.dom(),
                        forall|x: usize|
                            vd.contains_key(x) ==> (x as int) < self.nodes@.len() && dist.ensures(
                                (q, &self.entries@[x as int].vector),
                                vd[x],
                            ),
                        records_distances(w@, vd),
                        keeps_nearest(w@, vd, ef),
                        forall|k: int| 0 <= k < entry_points@.len() ==> vd.contains_key(#[trigger] entry_points@[k]),
                        w@.len() <= (if ef > entry_points@.len() { ef as int } else { entry_points@.len() as int }),
                        records_distances(cands@, vd),
                        forall|y: usize|
                            #[trigger] nodes_of(w@).contains(y) ==> y == c.node || nodes_of(cands@).contains(y)
                                || self.expanded(y, layer as int, skip, visited@),
                        forall|jj: int| 0 <= jj < j ==> #[trigger] nbrs@[jj] == skip || visited@.contains(nbrs@[jj]),
                    decreases nbrs@.len() - j,
                {
                    let nb = nbrs[j];
                    let ghost w0 = w@;
                    let ghost c0 = cands@;
                    let ghost v0 = visited@;
                    assert(self.linked(c.node as int, layer as int, nb));
                    if nb != skip && !visited.contains(&nb) {
                        visited.insert(nb);
                        proof {
                            lemma_bounded_set_len(visited@, n);
                        }
                        let d = dist(q, &self.entries[nb].vector);
                        let worst = w[w.len() - 1];
                        let ghost vold = vd;
                        proof {
                            assert(!vold.contains_key(nb));
                        }
                        if w.len() < ef || order_key(d) < order_key(worst.distance) {
                            let cand = Candidate { distance: d, node: nb };
                            let ghost cpre = cands@;
                            cands.push(cand);
                            let ghost before = w@;
                            let p = insert_sorted(&mut w, cand);
                            assert forall|a: int, b: int| 0 <= a < b < w@.len() implies w@[a].node != w@[b].node by {
                                if a != p && b != p {
                                    let a0 = if a < p { a } else { a - 1 };
                                    let b0 = if b < p { b } else { b - 1 };
                                    assert(w@[a] == before[a0]);
                                    assert(w@[b] == before[b0]);
                                } else if a == p {
                                    let b0 = b - 1;
                                    assert(w@[b] == before[b0]);
                                    assert(visited@.contains(before[b0].node));
                                } else {
                                    let a0 = if a < p { a } else { a - 1 };
                                    assert(w@[a] == before[a0]);
                                    assert(visited@.contains(before[a0].node));
                                }
                            }
                            assert forall|k: int| 0 <= k < w@.len() implies visited@.contains(#[trigger] w@[k].node) by {
                                if k < p {
                                    assert(w@[k] == before[k]);
                                } else if k > p {
                                    assert(w@[k] == before[k - 1]);
                                }
                            }
                            proof {
                                lemma_keeps_push(before, p as int, cand, vold, ef);
                                vd = vold.insert(nb, d);
                            }
                            let ghost w1 = w@;
                            if w.len() > ef {
                                w.pop();
                                proof {
                                    assert(w@ =~= before.insert(p as int, cand).drop_last());
                                }
                            }
                            proof {
                                assert(nodes_of(cands@) =~= nodes_of(cpre).push(nb));
                                assert(nodes_of(cands@)[cpre.len() as int] == nb);
                                assert(nodes_of(w1) =~= nodes_of(before).insert(p as int, nb));
                                lemma_insert_contains(nodes_of(before), p as int, nb);
                                assert forall|y: usize| #[trigger] nodes_of(c0).contains(y) implies nodes_of(cands@).contains(y) by {
                                    let q = choose|q: int| 0 <= q < c0.len() && nodes_of(c0)[q] == y;
                                    assert(nodes_of(cands@)[q] == y);
                                }
                                assert forall|y: usize| #[trigger] nodes_of(w@).contains(y) implies nodes_of(w0).contains(y)
                                    || nodes_of(cands@).contains(y) by {
                                    let q = choose|q: int| 0 <= q < w@.len() && nodes_of(w@)[q] == y;
                                    assert(w@[q] == w1[q]);
                                    assert(nodes_of(w1)[q] == y);
                                }
                            }
                        } else {
                            proof {
                                vd = vold.insert(nb, d);
                                assert forall|k: int| 0 <= k < w@.len() implies vd.contains_key(#[trigger] w@[k].node) && vd[w@[k].node] == w@[k].distance by {
                                    assert(vold.contains_key(w@[k].node));
                                }
                                assert forall|x: usize| #[trigger] vd.contains_key(x) && !nodes_of(w@).contains(x) implies w@.len() >= ef && forall|k: int|
                                    0 <= k < w@.len() ==> order_key_spec(#[trigger] w@[k].distance) <= order_key_spec(vd[x]) by {
                                    if x == nb {
                                        assert forall|k: int| 0 <= k < w@.len() implies order_key_spec(#[trigger] w@[k].distance) <= order_key_spec(vd[x]) by {
                                            assert(order_key_spec(w@[k].distance) <= order_key_spec(worst.distance));
                                        }
                                    } else {
                                        assert(vold.contains_key(x));
                                    }
                                }
                            }
                        }
                        proof {
                            assert(visited@ =~= vd.dom());
                        }
                    }
                    proof {
                        assert forall|y: usize|
                            #[trigger] nodes_of(w@).contains(y) implies y == c.node || nodes_of(cands@).contains(y)
                                || self.expanded(y, layer as int, skip, visited@) by {
                            if nodes_of(w0).contains(y) && !nodes_of(cands@).contains(y) && y != c.node {
                                if nodes_of(c0).contains(y) {
                                    assert(nodes_of(cands@).contains(y));
                                }
                                assert(self.expanded(y, layer as int, skip, v0));
                                self.lemma_expanded_grow(y, layer as int, skip, v0, visited@);
                            }
                        }
                    }
                    j += 1;
                }
                proof {
                    assert forall|nb2: usize| #[trigger] self.linked(c.node as int, layer as int, nb2) && nb2 != skip
                        implies visited@.contains(nb2) by {
                        let jj = choose|jj: int| 0 <= jj < nbrs@.len() && nbrs@[jj] == nb2;
                        assert(nbrs@[jj] == skip || visited@.contains(nbrs@[jj]));
                    }
                    assert(self.expanded(c.node, layer as int, skip, visited@));
                }
            } else {
                proof {
                    assert forall|nb2: usize| #[trigger] self.linked(c.node as int, layer as int, nb2) && nb2 != skip
                        implies visited@.contains(nb2) by {
                    }
                    assert(self.expanded(c.node, layer as int, skip, visited@));
                }
            }
        }
        proof {
            assert forall|k: int, nb: usize|
                0 <= k < w@.len() && #[trigger] self.linked(w@[k].node as int, layer as int, nb) && nb != skip implies vd.contains_key(nb) by {
                assert(nodes_of(w@)[k] == w@[k].node);
                assert(nodes_of(w@).contains(w@[k].node));
                assert(self.expanded(w@[k].node, layer as int, skip, visited@));
            }
        }
        w
    }
}

/// Insert then get: after a successful insert of `id`, the index shows `id`
/// with the stored form of the vector (normalised under cosine) and with the
/// metadata given, which is what `get(id)` answers.
pub proof fn lemma_insert_then_get<N: Fn(&Vec<u32>) -> Vec<u32>>(
    before: &HnswIndex,
    after: &HnswIndex,
    id: Seq<char>,
    vector: &Vec<u32>,
    metadata: Option<String>,
    level: usize,
    normalize: &N,
)
    requires
        HnswIndex::inserted(before, after, id, vector, metadata, level, normalize),
    ensures
        exists|stored: Seq<u32>|
            after.visible(id) == Some((stored, metadata)) && #[trigger] stored_form(
                before.spec_metric(),
                normalize,
                vector@,
                stored,
            ),
{
    let stored = after.entry(before.count()).vector@;
    assert(stored_form(before.spec_metric(), normalize, vector@, stored));
}

/// What a successful insert leaves, seen from outside: one more entry, the
/// identifier stored and live, its layer capped at `MAX_LEVEL`, and every
/// other identifier where it was with its flag.
pub proof fn lemma_inserted_facts<N: Fn(&Vec<u32>) -> Vec<u32>>(
    before: &HnswIndex,
    after: &HnswIndex,
    id: Seq<char>,
    vector: &Vec<u32>,
    metadata: Option<String>,
    level: usize,
    normalize: &N,
)
    requires
        HnswIndex::inserted(before, after, id, vector, metadata, level, normalize),
    ensures
        after.count() == before.count() + 1,
        after.lookup(id) == Some(before.count()),
        after.ids().contains(id),
        !after.is_deleted(id),
        after.level_of(before.count()) == if level > MAX_LEVEL { MAX_LEVEL } else { level },
        after.entry(before.count()).metadata == metadata,
        stored_form(before.spec_metric(), normalize, vector@, after.entry(before.count()).vector@),
        forall|other: Seq<char>| other != id ==> #[trigger] after.lookup(other) == before.lookup(other),
        forall|other: Seq<char>| other != id ==> #[trigger] after.is_deleted(other) == before.is_deleted(other),
{
}

/// A search hit names a stored, live identifier, carries its metadata, and
/// is what `get` shows for it.
pub proof fn lemma_hit_facts<D: Fn(&Vec<u32>, &Vec<u32>) -> u32>(index: &HnswIndex, q: &Vec<u32>, dist: &D, r: SearchResult)
    requires
        index.hit(q, dist, r),
    ensures
        index.lookup(r.id@) is Some,
        index.ids().contains(r.id@),
        !index.is_deleted(r.id@),
        index.visible(r.id@) == Some((index.entry(index.lookup(r.id@)->0).vector@, r.metadata)),
        dist.ensures((q, &index.entry(index.lookup(r.id@)->0).vector), r.distance),
{
}

/// An empty index holds no identifier: `get` answers nothing for any of
/// them, and none is stored or soft-deleted.
pub proof fn lemma_empty_index_holds_nothing(index: &HnswIndex, id: Seq<char>)
    requires
        index.count() == 0,
    ensures
        index.lookup(id) is None,
        index.visible(id) is None,
        !index.is_deleted(id),
        !index.ids().contains(id),
{
    index.lemma_lookup_some(id);
}

/// A soft-deleted identifier is hidden: `get` answers nothing for it, and no
/// search hit carries it, however close its vector is to the query.
pub proof fn lemma_deleted_is_hidden<D: Fn(&Vec<u32>, &Vec<u32>) -> u32>(
    index: &HnswIndex,
    id: Seq<char>,
    q: &Vec<u32>,
    dist: &D,
    r: SearchResult,
)
    requires
        index.is_deleted(id),
    ensures
        index.visible(id) is None,
        index.hit(q, dist, r) ==> r.id@ != id,
{
}

/// In a well-formed index every edge runs both ways: `v` is a neighbour of
/// `u` on layer `l` exactly when `u` is a neighbour of `v` there.
pub proof fn lemma_edges_bidirectional(index: &HnswIndex, u: int, l: int, v: usize)
    requires
        index.wf(),
        index.linked(u, l, v),
    ensures
        index.linked(v as int, l, u as usize),
{
}

/// In a well-formed index no neighbour list exceeds its cap: `M` above the
/// ground layer, `M0` on it.
pub proof fn lemma_connection_caps(index: &HnswIndex, n: int, l: int)
    requires
        index.wf(),
        index.has_layer(n, l),
    ensures
        l >= 1 ==> index.links(n, l).len() <= index.spec_config().max_connections,
        l == 0 ==> index.links(n, l).len() <= index.spec_config().max_connections_layer0,
{
}

} // verus!
