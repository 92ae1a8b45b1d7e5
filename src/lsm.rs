//! The table index of the storage engine's log-structured tree: which sorted
//! table may hold a key.
use vstd::prelude::*;

verus! {

/// Whether `a` comes no later than `b` in byte-wise lexicographic order.
pub open spec fn lex_le(a: Seq<u8>, b: Seq<u8>) -> bool
    decreases a.len(),
{
    if a.len() == 0 {
        true
    } else if b.len() == 0 {
        false
    } else if a[0] != b[0] {
        a[0] < b[0]
    } else {
        lex_le(a.drop_first(), b.drop_first())
    }
}

/// Any two byte strings are ordered one way or the other.
pub proof fn lemma_lex_total(a: Seq<u8>, b: Seq<u8>)
    ensures
        lex_le(a, b) || lex_le(b, a),
    decreases a.len(),
{
    if a.len() > 0 && b.len() > 0 && a[0] == b[0] {
        lemma_lex_total(a.drop_first(), b.drop_first());
    }
}

/// The byte-wise order is transitive.
pub proof fn lemma_lex_trans(a: Seq<u8>, b: Seq<u8>, c: Seq<u8>)
    requires
        lex_le(a, b),
        lex_le(b, c),
    ensures
        lex_le(a, c),
    decreases a.len(),
{
    if a.len() > 0 && b.len() > 0 && c.len() > 0 && a[0] == b[0] && b[0] == c[0] {
        lemma_lex_trans(a.drop_first(), b.drop_first(), c.drop_first());
    }
}

/// Compares two byte strings lexicographically.
pub fn bytes_le(a: &[u8], b: &[u8]) -> (r: bool)
    ensures
        r == lex_le(a@, b@),
{
    let mut i: usize = 0;
    assert(a@.subrange(0, a@.len() as int) =~= a@);
    assert(b@.subrange(0, b@.len() as int) =~= b@);
    while i < a.len() && i < b.len() && a[i] == b[i]
        invariant
            i <= a@.len(),
            i <= b@.len(),
            a@.subrange(0, i as int) == b@.subrange(0, i as int),
            lex_le(a@, b@) == lex_le(a@.subrange(i as int, a@.len() as int), b@.subrange(i as int, b@.len() as int)),
        decreases a@.len() - i,
    {
        proof {
            let sa = a@.subrange(i as int, a@.len() as int);
            let sb = b@.subrange(i as int, b@.len() as int);
            assert(sa.drop_first() =~= a@.subrange(i + 1, a@.len() as int));
            assert(sb.drop_first() =~= b@.subrange(i + 1, b@.len() as int));
            assert(a@.subrange(0, i + 1) =~= a@.subrange(0, i as int).push(a@[i as int]));
            assert(b@.subrange(0, i + 1) =~= b@.subrange(0, i as int).push(b@[i as int]));
        }
        i += 1;
    }
    if i == a.len() {
        true
    } else if i == b.len() {
        false
    } else {
        a[i] < b[i]
    }
}

/// A sorted table on disk and the range of keys it covers.
#[derive(Debug, Clone)]
pub struct SSTable {
    pub file_id: u64,
    pub min_key: Vec<u8>,
    pub max_key: Vec<u8>,
}

impl SSTable {
    pub fn new(file_id: u64, min_key: Vec<u8>, max_key: Vec<u8>) -> (t: SSTable)
        ensures
            t.file_id == file_id,
            t.min_key@ == min_key@,
            t.max_key@ == max_key@,
    {
        SSTable { file_id, min_key, max_key }
    }

    /// Whether `key` lies in the table's range, both ends included.
    pub fn contains_key(&self, key: &[u8]) -> (r: bool)
        ensures
            r == (lex_le(self.min_key@, key@) && lex_le(key@, self.max_key@)),
    {
        bytes_le(self.min_key.as_slice(), key) && bytes_le(key, self.max_key.as_slice())
    }
}

/// One level of the tree: its tables, oldest first.
#[derive(Debug, Clone)]
pub struct Level {
    pub files: Vec<SSTable>,
    pub level: usize,
}

impl Level {
    pub fn new(level: usize) -> (l: Level)
        ensures
            l.level == level,
            l.files@.len() == 0,
    {
        Level { files: Vec::new(), level }
    }

    pub fn add_sstable(&mut self, sstable: SSTable)
        ensures
            final(self).files@ == old(self).files@.push(sstable),
            final(self).level == old(self).level,
    {
        self.files.push(sstable);
    }

    /// The file id of the first table whose range holds `key`.
    pub fn search(&self, key: &[u8]) -> (r: Option<u64>)
        ensures
            r matches Some(id) ==> exists|i: int|
                0 <= i < self.files@.len() && self.files@[i].file_id == id && lex_le(self.files@[i].min_key@, key@)
                    && lex_le(key@, self.files@[i].max_key@),
            r is None ==> forall|i: int|
                0 <= i < self.files@.len() ==> !(lex_le((#[trigger] self.files@[i]).min_key@, key@) && lex_le(
                    key@,
                    self.files@[i].max_key@,
                )),
    {
        let mut i: usize = 0;
        while i < self.files.len()
            invariant
                i <= self.files@.len(),
                forall|k: int|
                    0 <= k < i ==> !(lex_le((#[trigger] self.files@[k]).min_key@, key@) && lex_le(
                        key@,
                        self.files@[k].max_key@,
                    )),
            decreases self.files@.len() - i,
        {
            if self.files[i].contains_key(key) {
                return Some(self.files[i].file_id);
            }
            i += 1;
        }
        None
    }
}

/// Settings of the storage engine.
#[derive(Debug, Clone, Copy, PartialEq, Eq, Structural)]
pub struct StorageConfig {
    /// Entries the cache holds.
    pub cache_size: usize,
    /// Levels that trigger a compaction.
    pub compaction_threshold: usize,
    /// Tables a level holds.
    pub max_level_size: usize,
    pub enable_wal: bool,
}

impl Default for StorageConfig {
    fn default() -> (c: StorageConfig)
        ensures
            c == (StorageConfig { cache_size: 1000, compaction_threshold: 4, max_level_size: 10, enable_wal: true }),
    {
        StorageConfig { cache_size: 1000, compaction_threshold: 4, max_level_size: 10, enable_wal: true }
    }
}

/// What the storage engine reports about itself.
#[derive(Debug, Clone, Copy, PartialEq, Eq, Structural)]
pub struct StorageStats {
    pub lsm_levels: usize,
    pub cache_size: usize,
    pub wal_enabled: bool,
}

} // verus!
