//! Spreading one logical index over several shards: writes go to the shard
//! that a stable hash of the identifier picks, searches go to every shard and
//! their hits are merged.
use vstd::prelude::*;
use vstd::string::StringExecFns;
use crate::hnsw::copy_text;
use crate::metric::{order_key, order_key_spec};

verus! {

/// Number of shards when none is configured.
pub const DEFAULT_SHARD_COUNT: usize = 10;

/// The 64-bit digest that routing uses for an identifier.
pub uninterp spec fn stable_hash(key: Seq<char>) -> u64;

/// Relies on std's `BuildHasher::hash_one` with `BuildHasherDefault<DefaultHasher>`:
/// the default hasher starts from fixed keys (it is not seeded per process),
/// so the digest depends on the characters of `key` alone.
#[verifier::external_body]
pub(crate) fn hash_key(key: &str) -> (h: u64)
    ensures
        h == stable_hash(key@),
{
    let build = std::hash::BuildHasherDefault::<std::collections::hash_map::DefaultHasher>::default();
    std::hash::BuildHasher::hash_one(&build, key)
}

/// The decimal digits of `n`, most significant first.
pub open spec fn decimal(n: nat) -> Seq<char>
    decreases n,
{
    if n < 10 {
        seq![(n + 48) as char]
    } else {
        decimal(n / 10).push(((n % 10) + 48) as char)
    }
}

/// Relies on `ToString` for `usize` (through `Display`): the text is the
/// decimal digits of `n`.
#[verifier::external_body]
fn decimal_text(n: usize) -> (r: String)
    ensures
        r@ == decimal(n as nat),
{
    n.to_string()
}

/// The shard an identifier belongs to among `shard_count` shards.
pub open spec fn shard_of(key: Seq<char>, shard_count: usize) -> int {
    (stable_hash(key) as int) % (shard_count as int)
}

/// Picks a shard for each identifier by hashing it.
#[derive(Debug, Clone, Copy, PartialEq, Eq, Structural)]
pub struct ShardRouter {
    shard_count: usize,
}

impl ShardRouter {
    pub closed spec fn spec_shard_count(&self) -> usize {
        self.shard_count
    }

    /// A router over `shard_count` shards; there must be at least one.
    pub fn new(shard_count: usize) -> (r: ShardRouter)
        requires
            shard_count > 0,
        ensures
            r.spec_shard_count() == shard_count,
    {
        ShardRouter { shard_count }
    }

    /// The shard of `key`: its stable hash modulo the number of shards.
    pub fn get_shard(&self, key: &str) -> (r: usize)
        requires
            self.spec_shard_count() > 0,
        ensures
            r as int == shard_of(key@, self.spec_shard_count()),
            r < self.spec_shard_count(),
    {
        let h = hash_key(key);
        (h % (self.shard_count as u64)) as usize
    }

    /// The name under which shard `shard_id` is addressed.
    pub fn get_shard_name(&self, shard_id: usize) -> (r: String)
        ensures
            r@ == "vector-index-"@ + decimal(shard_id as nat),
    {
        let digits = decimal_text(shard_id);
        let mut name = String::from_str("vector-index-");
        name.append(digits.as_str());
        name
    }

    /// Every shard, in order, for a query that must reach them all.
    pub fn all_shards(&self) -> (r: Vec<usize>)
        ensures
            r@.len() == self.spec_shard_count(),
            forall|i: int| 0 <= i < r@.len() ==> #[trigger] r@[i] == i,
    {
        let mut r: Vec<usize> = Vec::new();
        let mut i: usize = 0;
        while i < self.shard_count
            invariant
                i <= self.shard_count,
                r@.len() == i,
                forall|k: int| 0 <= k < i ==> #[trigger] r@[k] == k,
            decreases self.shard_count - i,
        {
            r.push(i);
            i += 1;
        }
        r
    }

    /// Number of shards.
    pub fn shard_count(&self) -> (r: usize)
        ensures
            r == self.spec_shard_count(),
    {
        self.shard_count
    }
}

/// Routing is stable: the shard of an identifier depends on the identifier
/// and the number of shards alone, so two routers with the same count agree
/// on every identifier, call after call.
pub proof fn lemma_routing_stable(a: ShardRouter, b: ShardRouter, key: Seq<char>)
    requires
        a.spec_shard_count() == b.spec_shard_count(),
        a.spec_shard_count() > 0,
    ensures
        shard_of(key, a.spec_shard_count()) == shard_of(key, b.spec_shard_count()),
        0 <= shard_of(key, a.spec_shard_count()) < a.spec_shard_count(),
{
}

/// One hit reported by a shard.
#[derive(Debug)]
pub struct SearchMatch {
    pub id: String,
    /// Distance as a single-precision bit pattern; smaller is closer.
    pub distance: u32,
    pub metadata: Option<String>,
}

/// The hits one shard returned.
#[derive(Debug)]
pub struct ShardSearchResult {
    pub shard_id: usize,
    pub results: Vec<SearchMatch>,
}

fn copy_match(m: &SearchMatch) -> (r: SearchMatch)
    ensures
        r == *m,
{
    SearchMatch { id: m.id.clone(), distance: m.distance, metadata: copy_text(&m.metadata) }
}

/// The hits of all shards, shard after shard.
pub open spec fn all_matches(shards: Seq<ShardSearchResult>) -> Seq<SearchMatch>
    decreases shards.len(),
{
    if shards.len() == 0 {
        Seq::empty()
    } else {
        all_matches(shards.drop_last()) + shards.last().results@
    }
}

/// Whether hits are in ascending order of distance.
pub open spec fn ascending(s: Seq<SearchMatch>) -> bool {
    forall|i: int, j: int|
        0 <= i < j < s.len() ==> order_key_spec(s[i].distance) <= order_key_spec(s[j].distance)
}

/// Whether no identifier appears twice.
pub open spec fn unique_ids(s: Seq<SearchMatch>) -> bool {
    forall|i: int, j: int| 0 <= i < j < s.len() ==> s[i].id@ != s[j].id@
}

/// `merged` is a top-`k` merge of `all`: at most `k` hits of `all`, nearest
/// first, no identifier twice, and every hit of `all` is either matched by a
/// kept hit with its identifier at no greater distance, or lies no nearer
/// than every kept hit of a full list.
pub open spec fn is_top_k_merge(all: Seq<SearchMatch>, k: usize, merged: Seq<SearchMatch>) -> bool {
    &&& merged.len() <= k
    &&& ascending(merged)
    &&& unique_ids(merged)
    &&& forall|i: int| 0 <= i < merged.len() ==> all.contains(#[trigger] merged[i])
    &&& forall|e: SearchMatch|
        #![trigger all.contains(e)]
        all.contains(e) ==> (exists|i: int|
            0 <= i < merged.len() && #[trigger] merged[i].id@ == e.id@ && order_key_spec(merged[i].distance)
                <= order_key_spec(e.distance)) || (merged.len() == k && forall|i: int|
            0 <= i < merged.len() ==> order_key_spec(#[trigger] merged[i].distance) <= order_key_spec(
                e.distance,
            ))
}

pub proof fn lemma_insert_contains<A>(s: Seq<A>, p: int, c: A)
    requires
        0 <= p <= s.len(),
    ensures
        forall|e: A| #[trigger] s.insert(p, c).contains(e) <==> (s.contains(e) || e == c),
{
    let t = s.insert(p, c);
    assert forall|e: A| #[trigger] t.contains(e) <==> (s.contains(e) || e == c) by {
        if t.contains(e) {
            let k = choose|k: int| 0 <= k < t.len() && t[k] == e;
            if k < p {
                assert(s[k] == e);
            } else if k > p {
                assert(s[k - 1] == e);
            }
        }
        if s.contains(e) {
            let k = choose|k: int| 0 <= k < s.len() && s[k] == e;
            if k < p {
                assert(t[k] == e);
            } else {
                assert(t[k + 1] == e);
            }
        }
        if e == c {
            assert(t[p] == e);
        }
    }
}

proof fn lemma_push_contains<A>(s: Seq<A>, c: A)
    ensures
        forall|e: A| #[trigger] s.push(c).contains(e) <==> (s.contains(e) || e == c),
{
    let t = s.push(c);
    assert forall|e: A| #[trigger] t.contains(e) <==> (s.contains(e) || e == c) by {
        if t.contains(e) {
            let k = choose|k: int| 0 <= k < t.len() && t[k] == e;
            if k < s.len() {
                assert(s[k] == e);
            }
        }
        if s.contains(e) {
            let k = choose|k: int| 0 <= k < s.len() && s[k] == e;
            assert(t[k] == e);
        }
        if e == c {
            assert(t[s.len() as int] == e);
        }
    }
}

/// Inserts a hit into a list sorted by distance, after hits at the same distance.
fn insert_match(w: &mut Vec<SearchMatch>, c: SearchMatch) -> (p: usize)
    requires
        ascending(old(w)@),
    ensures
        p <= old(w)@.len(),
        final(w)@ == old(w)@.insert(p as int, c),
        ascending(final(w)@),
{
    let key = order_key(c.distance);
    let mut p: usize = 0;
    while p < w.len() && order_key(w[p].distance) <= key
        invariant
            p <= w@.len(),
            ascending(w@),
            forall|i: int| 0 <= i < p ==> order_key_spec(#[trigger] w@[i].distance) <= key,
            key == order_key_spec(c.distance),
        decreases w@.len() - p,
    {
        p += 1;
    }
    let ghost before = w@;
    w.insert(p, c);
    assert forall|i: int, j: int| 0 <= i < j < w@.len() implies order_key_spec(w@[i].distance)
        <= order_key_spec(w@[j].distance) by {
        if j < p {
        } else if j == p {
        } else if i < p {
            assert(w@[j] == before[j - 1]);
        } else if i == p {
            assert(w@[j] == before[j - 1]);
            assert(order_key_spec(before[p as int].distance) > key);
        } else {
            assert(w@[j] == before[j - 1]);
            assert(w@[i] == before[i - 1]);
        }
    }
    p
}

/// Whether some hit of `out` has identifier `id`.
fn has_id(out: &Vec<SearchMatch>, id: &String) -> (r: Option<usize>)
    ensures
        r matches Some(i) ==> i < out@.len() && out@[i as int].id@ == id@,
        r is None ==> forall|i: int| 0 <= i < out@.len() ==> (#[trigger] out@[i]).id@ != id@,
{
    let mut i: usize = 0;
    while i < out.len()
        invariant
            i <= out@.len(),
            forall|k: int| 0 <= k < i ==> (#[trigger] out@[k]).id@ != id@,
        decreases out@.len() - i,
    {
        if out[i].id == *id {
            return Some(i);
        }
        i += 1;
    }
    None
}

#[verifier::rlimit(60)]
/// Merges the hits of several shards: all hits in ascending order of
/// distance, the first (nearest) hit of each identifier only, at most `top_k`.
pub fn merge_shard_results(shard_results: Vec<ShardSearchResult>, top_k: usize) -> (r: Vec<SearchMatch>)
    ensures
        is_top_k_merge(all_matches(shard_results@), top_k, r@),
{
    let ghost all = all_matches(shard_results@);
    let mut sorted: Vec<SearchMatch> = Vec::new();
    let ghost mut seen: Seq<SearchMatch> = Seq::empty();
    let mut s: usize = 0;
    while s < shard_results.len()
        invariant
            s <= shard_results@.len(),
            seen == all_matches(shard_results@.subrange(0, s as int)),
            ascending(sorted@),
            forall|e: SearchMatch| #[trigger] seen.contains(e) <==> sorted@.contains(e),
        decreases shard_results@.len() - s,
    {
        let hits = &shard_results[s].results;
        let mut j: usize = 0;
        while j < hits.len()
            invariant
                j <= hits@.len(),
                s < shard_results@.len(),
                hits == shard_results@[s as int].results,
                seen == all_matches(shard_results@.subrange(0, s as int)) + hits@.subrange(0, j as int),
                ascending(sorted@),
                forall|e: SearchMatch| #[trigger] seen.contains(e) <==> sorted@.contains(e),
            decreases hits@.len() - j,
        {
            let c = copy_match(&hits[j]);
            let ghost before = sorted@;
            let p = insert_match(&mut sorted, c);
            proof {
                lemma_insert_contains(before, p as int, c);
                lemma_push_contains(seen, c);
                seen = seen.push(c);
                assert(seen =~= all_matches(shard_results@.subrange(0, s as int)) + hits@.subrange(0, j + 1));
            }
            j += 1;
        }
        proof {
            assert(hits@.subrange(0, hits@.len() as int) =~= hits@);
            let sub = shard_results@.subrange(0, s + 1);
            assert(sub.drop_last() =~= shard_results@.subrange(0, s as int));
            assert(sub.last() == shard_results@[s as int]);
        }
        s += 1;
    }
    proof {
        assert(shard_results@.subrange(0, shard_results@.len() as int) =~= shard_results@);
    }
    let mut out: Vec<SearchMatch> = Vec::new();
    let ghost mut origin: Seq<int> = Seq::empty();
    let ghost mut cover: Seq<int> = Seq::empty();
    let mut t: usize = 0;
    let n = sorted.len();
    while t < n && out.len() < top_k
        invariant
            n == sorted@.len(),
            t <= n,
            out@.len() <= top_k,
            ascending(sorted@),
            ascending(out@),
            unique_ids(out@),
            origin.len() == out@.len(),
            forall|i: int| 0 <= i < out@.len() ==> 0 <= #[trigger] origin[i] < t && sorted@[origin[i]] == out@[i],
            cover.len() == t,
            forall|q: int|
                0 <= q < t ==> {
                    &&& 0 <= #[trigger] cover[q] < out@.len()
                    &&& out@[cover[q]].id@ == sorted@[q].id@
                    &&& order_key_spec(out@[cover[q]].distance) <= order_key_spec(sorted@[q].distance)
                },
        decreases n - t,
    {
        let found = has_id(&out, &sorted[t].id);
        match found {
            Some(i) => {
                proof {
                    assert(origin[i as int] < t);
                    cover = cover.push(i as int);
                }
            },
            None => {
                let c = copy_match(&sorted[t]);
                proof {
                    assert forall|i: int| 0 <= i < out@.len() implies order_key_spec(out@[i].distance)
                        <= order_key_spec(c.distance) by {
                        assert(origin[i] < t);
                    }
                }
                let ghost before = out@;
                out.push(c);
                proof {
                    assert forall|a: int, b: int| 0 <= a < b < out@.len() implies out@[a].id@ != out@[b].id@ by {
                        if b == before.len() {
                            assert(out@[a] == before[a]);
                        } else {
                            assert(out@[a] == before[a] && out@[b] == before[b]);
                        }
                    }
                    origin = origin.push(t as int);
                    cover = cover.push(before.len() as int);
                    assert forall|q: int| 0 <= q < t implies out@[cover[q]] == before[cover[q]] by {
                    }
                }
            },
        }
        t += 1;
    }
    proof {
        let all = all_matches(shard_results@);
        assert forall|i: int| 0 <= i < out@.len() implies all.contains(#[trigger] out@[i]) by {
            assert(sorted@[origin[i]] == out@[i]);
            assert(sorted@.contains(out@[i]));
        }
        assert forall|e: SearchMatch| #![trigger all.contains(e)] all.contains(e) implies (exists|i: int|
            0 <= i < out@.len() && #[trigger] out@[i].id@ == e.id@ && order_key_spec(out@[i].distance)
                <= order_key_spec(e.distance)) || (out@.len() == top_k && forall|i: int|
            0 <= i < out@.len() ==> order_key_spec(#[trigger] out@[i].distance) <= order_key_spec(
                e.distance,
            )) by {
            assert(sorted@.contains(e));
            let q = choose|q: int| 0 <= q < sorted@.len() && sorted@[q] == e;
            if q < t {
                let i = cover[q];
                assert(out@[i].id@ == e.id@);
            } else {
                assert forall|i: int| 0 <= i < out@.len() implies order_key_spec(#[trigger] out@[i].distance)
                    <= order_key_spec(e.distance) by {
                    assert(origin[i] < t);
                }
            }
        }
    }
    out
}

/// After a merge no identifier appears twice, and the hit kept for an
/// identifier is at least as near as every other hit with that identifier.
pub proof fn lemma_merge_keeps_nearest(shards: Seq<ShardSearchResult>, top_k: usize, merged: Seq<SearchMatch>)
    requires
        is_top_k_merge(all_matches(shards), top_k, merged),
    ensures
        unique_ids(merged),
        forall|e: SearchMatch, i: int|
            #![trigger all_matches(shards).contains(e), merged[i]]
            all_matches(shards).contains(e) && 0 <= i < merged.len() && merged[i].id@ == e.id@
                ==> order_key_spec(merged[i].distance) <= order_key_spec(e.distance),
{
    let all = all_matches(shards);
    assert forall|e: SearchMatch, i: int|
        #![trigger all.contains(e), merged[i]]
        all.contains(e) && 0 <= i < merged.len() && merged[i].id@ == e.id@ implies order_key_spec(
        merged[i].distance,
    ) <= order_key_spec(e.distance) by {
        if exists|i2: int|
            0 <= i2 < merged.len() && #[trigger] merged[i2].id@ == e.id@ && order_key_spec(merged[i2].distance)
                <= order_key_spec(e.distance) {
            let i2 = choose|i2: int|
                0 <= i2 < merged.len() && #[trigger] merged[i2].id@ == e.id@ && order_key_spec(
                    merged[i2].distance,
                ) <= order_key_spec(e.distance);
            if i2 != i {
                if i < i2 {
                    assert(merged[i].id@ != merged[i2].id@);
                } else {
                    assert(merged[i2].id@ != merged[i].id@);
                }
            }
        }
    }
}

} // verus!
