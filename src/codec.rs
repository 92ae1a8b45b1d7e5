//! Byte layout of what an index keeps in its key-value store: the record of
//! each vector, the record describing the index, and the keys they live under.
//! Every record starts with a format version so that a reader can refuse
//! bytes written by an incompatible version.
use vstd::prelude::*;
use vstd::string::StringSliceAdditionalSpecFns;
use vstd::utf8::{decode_utf8, encode_utf8, valid_utf8};
use crate::error::VectorError;
use crate::hnsw::HnswConfig;
use crate::metric::DistanceMetric;

verus! {

broadcast use vstd::utf8::encode_utf8_valid_utf8, vstd::utf8::encode_utf8_decode_utf8;

/// Version byte that opens every record.
pub const FORMAT_VERSION: u8 = 1;

/// Key of the record describing the index.
pub const INDEX_META_KEY: &'static str = "__vector_index_metadata__";

/// Key of the whole-index snapshot.
pub const GRAPH_KEY: &'static str = "__hnsw_index__";

/// Prefix of the key of each vector record.
pub const VECTOR_PREFIX: &'static str = "__vector__";

/// Prefix of the key of each metadata record.
pub const METADATA_PREFIX: &'static str = "__vector_meta__";

/// The four bytes of `x`, most significant first.
pub open spec fn be32(x: u32) -> Seq<u8> {
    seq![(x >> 24u32) as u8, ((x >> 16u32) & 0xffu32) as u8, ((x >> 8u32) & 0xffu32) as u8, (x & 0xffu32) as u8]
}

/// The number whose bytes, most significant first, are `b[at..at + 4]`.
pub open spec fn be32_at(b: Seq<u8>, at: int) -> u32 {
    ((b[at] as u32) << 24u32) | ((b[at + 1] as u32) << 16u32) | ((b[at + 2] as u32) << 8u32) | (b[at + 3] as u32)
}

pub proof fn lemma_be32_round_trip(x: u32)
    ensures
        be32_at(be32(x), 0) == x,
{
    let b0 = (x >> 24u32) as u8;
    let b1 = ((x >> 16u32) & 0xffu32) as u8;
    let b2 = ((x >> 8u32) & 0xffu32) as u8;
    let b3 = (x & 0xffu32) as u8;
    assert(((b0 as u32) << 24u32) | ((b1 as u32) << 16u32) | ((b2 as u32) << 8u32) | (b3 as u32) == x)
        by (bit_vector)
        requires
            b0 == (x >> 24u32) as u8,
            b1 == ((x >> 16u32) & 0xffu32) as u8,
            b2 == ((x >> 8u32) & 0xffu32) as u8,
            b3 == (x & 0xffu32) as u8,
    ;
}

/// Four bytes read as a number give those bytes back.
pub proof fn lemma_be32_bytes(b: Seq<u8>, at: int)
    requires
        0 <= at,
        at + 4 <= b.len(),
    ensures
        be32(be32_at(b, at)) == b.subrange(at, at + 4),
{
    let b0 = b[at];
    let b1 = b[at + 1];
    let b2 = b[at + 2];
    let b3 = b[at + 3];
    let x = be32_at(b, at);
    assert((x >> 24u32) as u8 == b0 && ((x >> 16u32) & 0xffu32) as u8 == b1 && ((x >> 8u32) & 0xffu32) as u8
        == b2 && (x & 0xffu32) as u8 == b3) by (bit_vector)
        requires
            x == ((b0 as u32) << 24u32) | ((b1 as u32) << 16u32) | ((b2 as u32) << 8u32) | (b3 as u32),
    ;
    assert(be32(x) =~= b.subrange(at, at + 4));
}

/// The bytes of a sequence of words, four per word, most significant first.
pub open spec fn words_bytes(v: Seq<u32>) -> Seq<u8> {
    Seq::new(4 * v.len(), |i: int| be32(v[i / 4])[i % 4])
}

/// What a vector record holds besides the components: the soft-delete
/// flag, the node's top layer, and its position in insertion order. With the
/// layer and the order, replaying the records rebuilds the same graph.
#[derive(Debug, Clone, Copy, PartialEq, Eq, Structural)]
pub struct RecordHead {
    pub deleted: bool,
    pub level: u8,
    pub position: u32,
}

/// The record of a vector: version, soft-delete flag, layer, position,
/// number of components, then the components.
pub open spec fn vector_record(v: Seq<u32>, h: RecordHead) -> Seq<u8> {
    seq![FORMAT_VERSION, if h.deleted { 1u8 } else { 0u8 }, h.level] + be32(h.position) + be32(v.len() as u32)
        + words_bytes(v)
}

pub(crate) fn push_be32(out: &mut Vec<u8>, x: u32)
    ensures
        final(out)@ == old(out)@ + be32(x),
{
    out.push((x >> 24u32) as u8);
    out.push(((x >> 16u32) & 0xffu32) as u8);
    out.push(((x >> 8u32) & 0xffu32) as u8);
    out.push((x & 0xffu32) as u8);
    assert(final(out)@ =~= old(out)@ + be32(x));
}

pub(crate) fn read_be32(b: &[u8], at: usize) -> (r: u32)
    requires
        at + 4 <= b@.len(),
    ensures
        r == be32_at(b@, at as int),
{
    ((b[at] as u32) << 24u32) | ((b[at + 1] as u32) << 16u32) | ((b[at + 2] as u32) << 8u32) | (b[at + 3] as u32)
}

/// Encodes a vector with its record head.
pub fn encode_vector(v: &Vec<u32>, head: RecordHead) -> (r: Vec<u8>)
    requires
        v@.len() <= u32::MAX,
    ensures
        r@ == vector_record(v@, head),
{
    let mut out: Vec<u8> = Vec::new();
    out.push(FORMAT_VERSION);
    out.push(if head.deleted { 1u8 } else { 0u8 });
    out.push(head.level);
    push_be32(&mut out, head.position);
    push_be32(&mut out, v.len() as u32);
    let ghost start = out@;
    let mut i: usize = 0;
    while i < v.len()
        invariant
            i <= v@.len(),
            out@ == start + words_bytes(v@.subrange(0, i as int)),
        decreases v@.len() - i,
    {
        push_be32(&mut out, v[i]);
        proof {
            let w = v@.subrange(0, i + 1);
            assert(words_bytes(w) =~= words_bytes(v@.subrange(0, i as int)) + be32(v@[i as int])) by {
                assert forall|k: int| 0 <= k < 4 * (i + 1) implies #[trigger] words_bytes(w)[k] == (words_bytes(
                    v@.subrange(0, i as int),
                ) + be32(v@[i as int]))[k] by {
                    if k < 4 * i {
                        assert(k / 4 < i) by (nonlinear_arith)
                            requires
                                0 <= k < 4 * i,
                        ;
                    } else {
                        assert(k / 4 == i && k % 4 == k - 4 * i) by (nonlinear_arith)
                            requires
                                4 * i <= k < 4 * (i + 1),
                        ;
                    }
                }
            }
        }
        i += 1;
    }
    assert(v@.subrange(0, v@.len() as int) =~= v@);
    assert(out@ =~= vector_record(v@, head));
    out
}

/// Decodes a vector record: the components and the record head, or
/// `SerializationError` when the bytes are not such a record (another version
/// included).
pub fn decode_vector(b: &[u8]) -> (r: Result<(Vec<u32>, RecordHead), VectorError>)
    ensures
        r matches Ok((v, head)) ==> b@ == vector_record(v@, head),
        r is Err ==> r == Err::<(Vec<u32>, RecordHead), VectorError>(VectorError::SerializationError),
        (exists|v: Seq<u32>, head: RecordHead| v.len() <= u32::MAX && #[trigger] vector_record(v, head) == b@)
            ==> r is Ok,
{
    if b.len() < 11 || b[0] != FORMAT_VERSION || b[1] > 1 {
        proof {
            lemma_not_record(b@);
        }
        return Err(VectorError::SerializationError);
    }
    let blen = b.len();
    let n32 = read_be32(b, 7);
    if (blen - 11) as u64 != 4 * (n32 as u64) {
        proof {
            lemma_not_record(b@);
        }
        return Err(VectorError::SerializationError);
    }
    let n = n32 as usize;
    let mut v: Vec<u32> = Vec::new();
    let mut i: usize = 0;
    while i < n
        invariant
            blen == b@.len(),
            n == n32,
            n32 == be32_at(b@, 7),
            i <= n,
            b@.len() == 11 + 4 * n,
            v@.len() == i,
            forall|k: int| 0 <= k < i ==> #[trigger] v@[k] == be32_at(b@, 11 + 4 * k),
        decreases n - i,
    {
        assert(11 + 4 * i + 4 <= b@.len()) by (nonlinear_arith)
            requires
                i < n,
                b@.len() == 11 + 4 * n,
        ;
        v.push(read_be32(b, 11 + 4 * i));
        i += 1;
    }
    let head = RecordHead { deleted: b[1] == 1, level: b[2], position: read_be32(b, 3) };
    proof {
        lemma_be32_bytes(b@, 3);
        lemma_be32_bytes(b@, 7);
        assert(be32(v@.len() as u32) == b@.subrange(7, 11));
        assert forall|k: int| 0 <= k < 4 * n implies #[trigger] words_bytes(v@)[k] == b@[11 + k] by {
            let q = k / 4;
            assert(0 <= q < n && 0 <= k % 4 < 4 && k == 4 * q + k % 4) by (nonlinear_arith)
                requires
                    0 <= k < 4 * n,
                    q == k / 4,
            ;
            lemma_be32_bytes(b@, 11 + 4 * q);
            assert(be32(v@[q]) == b@.subrange(11 + 4 * q, 11 + 4 * q + 4));
        }
        assert(b@ =~= vector_record(v@, head));
    }
    Ok((v, head))
}

proof fn lemma_not_record(b: Seq<u8>)
    ensures
        (exists|v: Seq<u32>, head: RecordHead| v.len() <= u32::MAX && #[trigger] vector_record(v, head) == b) ==> {
            &&& b.len() >= 11
            &&& b[0] == FORMAT_VERSION
            &&& b[1] <= 1
            &&& b.len() - 11 == 4 * be32_at(b, 7)
        },
{
    if exists|v: Seq<u32>, head: RecordHead| v.len() <= u32::MAX && #[trigger] vector_record(v, head) == b {
        let (v, head) = choose|v: Seq<u32>, head: RecordHead|
            v.len() <= u32::MAX && #[trigger] vector_record(v, head) == b;
        lemma_be32_round_trip(v.len() as u32);
        assert(b.subrange(7, 11) =~= be32(v.len() as u32));
        assert(be32_at(b, 7) == be32_at(be32(v.len() as u32), 0));
    }
}

/// Vector records read back as written: two records with the same bytes hold
/// the same components, bit for bit, and the same head.
pub proof fn lemma_vector_record_round_trip(v: Seq<u32>, head: RecordHead, w: Seq<u32>, head2: RecordHead)
    requires
        v.len() <= u32::MAX,
        vector_record(v, head) == vector_record(w, head2),
    ensures
        w == v,
        head2 == head,
{
    let b = vector_record(v, head);
    let c = vector_record(w, head2);
    assert(b.len() == 11 + 4 * v.len());
    assert(c.len() == 11 + 4 * w.len());
    assert(w.len() == v.len());
    assert(b[1] == c[1] && b[2] == c[2]);
    assert(b[2] == head.level && c[2] == head2.level);
    assert(b[1] == (if head.deleted { 1u8 } else { 0u8 }));
    assert(c[1] == (if head2.deleted { 1u8 } else { 0u8 }));
    assert(b.subrange(3, 7) =~= be32(head.position));
    assert(c.subrange(3, 7) =~= be32(head2.position));
    lemma_be32_round_trip(head.position);
    lemma_be32_round_trip(head2.position);
    assert(be32(head.position) == be32(head2.position));
    assert(head.position == head2.position);
    assert forall|k: int| 0 <= k < v.len() implies w[k] == v[k] by {
        assert(b.subrange(11 + 4 * k, 11 + 4 * k + 4) =~= be32(v[k])) by {
            assert forall|j: int| 0 <= j < 4 implies #[trigger] b[11 + 4 * k + j] == be32(v[k])[j] by {
                assert((4 * k + j) / 4 == k && (4 * k + j) % 4 == j) by (nonlinear_arith)
                    requires
                        0 <= j < 4,
                ;
            }
        }
        assert(c.subrange(11 + 4 * k, 11 + 4 * k + 4) =~= be32(w[k])) by {
            assert forall|j: int| 0 <= j < 4 implies #[trigger] c[11 + 4 * k + j] == be32(w[k])[j] by {
                assert((4 * k + j) / 4 == k && (4 * k + j) % 4 == j) by (nonlinear_arith)
                    requires
                        0 <= j < 4,
                ;
            }
        }
        lemma_be32_round_trip(v[k]);
        lemma_be32_round_trip(w[k]);
    }
    assert(w =~= v);
}

/// The order in which stored records are replayed: every record once, by
/// ascending insertion position (records with equal positions keep their
/// listing order).
pub fn replay_order(heads: &Vec<RecordHead>) -> (r: Vec<usize>)
    ensures
        r@.len() == heads@.len(),
        r@.no_duplicates(),
        forall|i: int| 0 <= i < r@.len() ==> (#[trigger] r@[i] as int) < heads@.len(),
        forall|k: int| 0 <= k < heads@.len() ==> #[trigger] r@.contains(k as usize),
        forall|i: int, j: int|
            0 <= i < j < r@.len() ==> heads@[r@[i] as int].position <= heads@[r@[j] as int].position,
{
    let mut out: Vec<usize> = Vec::new();
    let mut i: usize = 0;
    while i < heads.len()
        invariant
            i <= heads@.len(),
            out@.len() == i,
            out@.no_duplicates(),
            forall|k: int| 0 <= k < out@.len() ==> (#[trigger] out@[k] as int) < i,
            forall|k: int| 0 <= k < i ==> #[trigger] out@.contains(k as usize),
            forall|a: int, b: int|
                0 <= a < b < out@.len() ==> heads@[out@[a] as int].position <= heads@[out@[b] as int].position,
        decreases heads@.len() - i,
    {
        let pos = heads[i].position;
        let mut p: usize = 0;
        while p < out.len() && heads[out[p]].position <= pos
            invariant
                p <= out@.len(),
                i < heads@.len(),
                pos == heads@[i as int].position,
                forall|k: int| 0 <= k < out@.len() ==> (#[trigger] out@[k] as int) < i,
                forall|k: int| 0 <= k < p ==> heads@[#[trigger] out@[k] as int].position <= pos,
            decreases out@.len() - p,
        {
            p += 1;
        }
        let ghost before = out@;
        out.insert(p, i);
        proof {
            assert forall|a: int, b: int| 0 <= a < b < out@.len() implies out@[a] != out@[b] by {
                if a != p && b != p {
                    let a0 = if a < p { a } else { a - 1 };
                    let b0 = if b < p { b } else { b - 1 };
                    assert(out@[a] == before[a0] && out@[b] == before[b0]);
                } else if a == p {
                    assert(out@[b] == before[b - 1]);
                } else {
                    let a0 = if a < p { a } else { a - 1 };
                    assert(out@[a] == before[a0]);
                }
            }
            assert forall|k: int| 0 <= k < i + 1 implies #[trigger] out@.contains(k as usize) by {
                if k == i as int {
                    assert(out@[p as int] == i);
                } else {
                    assert(before.contains(k as usize));
                    let q = choose|q: int| 0 <= q < before.len() && before[q] == k as usize;
                    if q < p {
                        assert(out@[q] == k as usize);
                    } else {
                        assert(out@[q + 1] == k as usize);
                    }
                }
            }
            assert forall|k: int| 0 <= k < out@.len() implies (#[trigger] out@[k] as int) < i + 1 by {
                if k < p {
                    assert(out@[k] == before[k]);
                } else if k > p {
                    assert(out@[k] == before[k - 1]);
                }
            }
            assert forall|a: int, b: int| 0 <= a < b < out@.len() implies heads@[out@[a] as int].position
                <= heads@[out@[b] as int].position by {
                if b < p {
                    assert(out@[a] == before[a] && out@[b] == before[b]);
                } else if b == p {
                    assert(out@[a] == before[a]);
                } else if a < p {
                    assert(out@[a] == before[a] && out@[b] == before[b - 1]);
                } else if a == p {
                    assert(out@[b] == before[b - 1]);
                    assert(heads@[before[p as int] as int].position > pos);
                } else {
                    assert(out@[a] == before[a - 1] && out@[b] == before[b - 1]);
                }
            }
        }
        i += 1;
    }
    out
}

/// Relies on `String::from_utf8`: it accepts valid UTF-8 and keeps the bytes
/// as the string's contents.
#[verifier::external_body]
fn string_from_utf8(bytes: Vec<u8>) -> (r: Option<String>)
    ensures
        valid_utf8(bytes@) ==> r is Some,
        r matches Some(s) ==> encode_utf8(s@) == bytes@,
{
    String::from_utf8(bytes).ok()
}

/// The UTF-8 bytes of a text.
pub fn encode_text(s: &str) -> (r: Vec<u8>)
    ensures
        r@ == encode_utf8(s@),
{
    let bytes = s.as_bytes();
    let mut out: Vec<u8> = Vec::new();
    let mut i: usize = 0;
    while i < bytes.len()
        invariant
            i <= bytes@.len(),
            out@ == bytes@.subrange(0, i as int),
        decreases bytes@.len() - i,
    {
        out.push(bytes[i]);
        i += 1;
    }
    assert(out@ =~= bytes@);
    out
}

/// Reads UTF-8 bytes back as text; `SerializationError` when they are not UTF-8.
pub fn decode_text(bytes: &[u8]) -> (r: Result<String, VectorError>)
    ensures
        r matches Ok(s) ==> encode_utf8(s@) == bytes@ && s@ == decode_utf8(bytes@),
        valid_utf8(bytes@) ==> r is Ok,
        r is Err ==> r == Err::<String, VectorError>(VectorError::SerializationError),
{
    let mut owned: Vec<u8> = Vec::new();
    let mut i: usize = 0;
    while i < bytes.len()
        invariant
            i <= bytes@.len(),
            owned@ == bytes@.subrange(0, i as int),
        decreases bytes@.len() - i,
    {
        owned.push(bytes[i]);
        i += 1;
    }
    assert(owned@ =~= bytes@);
    match string_from_utf8(owned) {
        Some(s) => {
            proof {
                vstd::utf8::encode_utf8_decode_utf8(s@);
            }
            Ok(s)
        },
        None => Err(VectorError::SerializationError),
    }
}

/// Texts read back as written.
pub proof fn lemma_text_round_trip(s: Seq<char>)
    ensures
        valid_utf8(encode_utf8(s)),
        decode_utf8(encode_utf8(s)) == s,
{
}

/// The key of the vector record of `id`.
pub fn vector_key(id: &str) -> (r: Vec<u8>)
    ensures
        r@ == encode_utf8(VECTOR_PREFIX@) + encode_utf8(id@),
{
    let mut key = encode_text(VECTOR_PREFIX);
    let tail = encode_text(id);
    let mut i: usize = 0;
    let ghost head = key@;
    while i < tail.len()
        invariant
            i <= tail@.len(),
            key@ == head + tail@.subrange(0, i as int),
        decreases tail@.len() - i,
    {
        key.push(tail[i]);
        i += 1;
    }
    assert(tail@.subrange(0, tail@.len() as int) =~= tail@);
    key
}

/// The key of the metadata record of `id`.
pub fn metadata_key(id: &str) -> (r: Vec<u8>)
    ensures
        r@ == encode_utf8(METADATA_PREFIX@) + encode_utf8(id@),
{
    let mut key = encode_text(METADATA_PREFIX);
    let tail = encode_text(id);
    let mut i: usize = 0;
    let ghost head = key@;
    while i < tail.len()
        invariant
            i <= tail@.len(),
            key@ == head + tail@.subrange(0, i as int),
        decreases tail@.len() - i,
    {
        key.push(tail[i]);
        i += 1;
    }
    assert(tail@.subrange(0, tail@.len() as int) =~= tail@);
    key
}

/// What the index record holds: shape, metric and build parameters.
#[derive(Debug, Clone, Copy, PartialEq, Eq, Structural)]
pub struct IndexMeta {
    pub dimension: usize,
    pub metric: DistanceMetric,
    pub config: HnswConfig,
}

/// The byte naming a metric.
pub open spec fn metric_byte(m: DistanceMetric) -> u8 {
    match m {
        DistanceMetric::Cosine => 0,
        DistanceMetric::Euclidean => 1,
        DistanceMetric::DotProduct => 2,
    }
}

/// The index record: version, metric, then dimension and the four build
/// parameters as 32-bit numbers.
pub open spec fn meta_record(m: IndexMeta) -> Seq<u8> {
    seq![FORMAT_VERSION, metric_byte(m.metric)] + be32(m.dimension as u32) + be32(
        m.config.max_connections as u32,
    ) + be32(m.config.max_connections_layer0 as u32) + be32(m.config.ef_construction as u32) + be32(
        m.config.ef_search as u32,
    )
}

/// Whether every number of the record fits in 32 bits.
pub open spec fn meta_fits(m: IndexMeta) -> bool {
    &&& m.dimension <= u32::MAX
    &&& m.config.max_connections <= u32::MAX
    &&& m.config.max_connections_layer0 <= u32::MAX
    &&& m.config.ef_construction <= u32::MAX
    &&& m.config.ef_search <= u32::MAX
}

/// Encodes the index record.
pub fn encode_index_meta(m: &IndexMeta) -> (r: Vec<u8>)
    requires
        meta_fits(*m),
    ensures
        r@ == meta_record(*m),
{
    let mut out: Vec<u8> = Vec::new();
    out.push(FORMAT_VERSION);
    out.push(
        match m.metric {
            DistanceMetric::Cosine => 0u8,
            DistanceMetric::Euclidean => 1u8,
            DistanceMetric::DotProduct => 2u8,
        },
    );
    push_be32(&mut out, m.dimension as u32);
    push_be32(&mut out, m.config.max_connections as u32);
    push_be32(&mut out, m.config.max_connections_layer0 as u32);
    push_be32(&mut out, m.config.ef_construction as u32);
    push_be32(&mut out, m.config.ef_search as u32);
    assert(out@ =~= meta_record(*m));
    out
}

/// Decodes the index record. A record of another format version is refused
/// with `InvalidVector`; bytes that are no record at all with
/// `SerializationError`.
pub fn decode_index_meta(b: &[u8]) -> (r: Result<IndexMeta, VectorError>)
    ensures
        r matches Ok(m) ==> b@ == meta_record(m) && meta_fits(m),
        b@.len() > 0 && b@[0] != FORMAT_VERSION ==> r == Err::<IndexMeta, VectorError>(VectorError::InvalidVector),
        r is Err ==> r == Err::<IndexMeta, VectorError>(VectorError::InvalidVector) || r == Err::<IndexMeta, VectorError>(
            VectorError::SerializationError,
        ),
        forall|m: IndexMeta| meta_fits(m) && #[trigger] meta_record(m) == b@ ==> r == Ok::<IndexMeta, VectorError>(m),
{
    if b.len() > 0 && b[0] != FORMAT_VERSION {
        return Err(VectorError::InvalidVector);
    }
    if b.len() != 22 || b[1] > 2 {
        proof {
            assert forall|m: IndexMeta| meta_fits(m) && #[trigger] meta_record(m) == b@ implies false by {
                assert(meta_record(m).len() == 22);
            }
        }
        return Err(VectorError::SerializationError);
    }
    let metric = if b[1] == 0 {
        DistanceMetric::Cosine
    } else if b[1] == 1 {
        DistanceMetric::Euclidean
    } else {
        DistanceMetric::DotProduct
    };
    let m = IndexMeta {
        dimension: read_be32(b, 2) as usize,
        metric,
        config: HnswConfig {
            max_connections: read_be32(b, 6) as usize,
            max_connections_layer0: read_be32(b, 10) as usize,
            ef_construction: read_be32(b, 14) as usize,
            ef_search: read_be32(b, 18) as usize,
        },
    };
    proof {
        lemma_be32_bytes(b@, 2);
        lemma_be32_bytes(b@, 6);
        lemma_be32_bytes(b@, 10);
        lemma_be32_bytes(b@, 14);
        lemma_be32_bytes(b@, 18);
        assert(b@ =~= meta_record(m));
        assert forall|m2: IndexMeta| meta_fits(m2) && #[trigger] meta_record(m2) == b@ implies m2 == m by {
            let s = meta_record(m2);
            assert(s.subrange(2, 6) =~= be32(m2.dimension as u32));
            assert(s.subrange(6, 10) =~= be32(m2.config.max_connections as u32));
            assert(s.subrange(10, 14) =~= be32(m2.config.max_connections_layer0 as u32));
            assert(s.subrange(14, 18) =~= be32(m2.config.ef_construction as u32));
            assert(s.subrange(18, 22) =~= be32(m2.config.ef_search as u32));
            lemma_be32_round_trip(m2.dimension as u32);
            lemma_be32_round_trip(m2.config.max_connections as u32);
            lemma_be32_round_trip(m2.config.max_connections_layer0 as u32);
            lemma_be32_round_trip(m2.config.ef_construction as u32);
            lemma_be32_round_trip(m2.config.ef_search as u32);
            assert(be32_at(b@, 2) == be32_at(be32(m2.dimension as u32), 0));
            assert(be32_at(b@, 6) == be32_at(be32(m2.config.max_connections as u32), 0));
            assert(be32_at(b@, 10) == be32_at(be32(m2.config.max_connections_layer0 as u32), 0));
            assert(be32_at(b@, 14) == be32_at(be32(m2.config.ef_construction as u32), 0));
            assert(be32_at(b@, 18) == be32_at(be32(m2.config.ef_search as u32), 0));
        }
    }
    Ok(m)
}

} // verus!
