//! The inventory: metadata (size, last use) of every archived cache entry.
use vstd::prelude::*;
use crate::address::{CacheKey, archive_path, is_address_of, key_to_path, parse_archive_path, parse_entry_path};

verus! {

/// Size and recency of one cache entry. `last_used` is a timestamp in
/// nanoseconds since the Unix epoch.
#[derive(Clone, Copy, Debug, PartialEq, Eq, Structural)]
pub struct EntryMeta {
    pub last_used: u64,
    pub size: u64,
}

/// One key with its metadata.
#[derive(Clone, Copy, Debug, PartialEq, Eq, Structural)]
pub struct CacheEntry {
    pub key: CacheKey,
    pub meta: EntryMeta,
}

/// Why a file under the cache root could not be taken as an entry.
#[derive(Clone, Copy, Debug, PartialEq, Eq, Structural)]
pub enum LoadError {
    /// The path is not of the form `.../<hex>/<hex>.tar.gz`.
    UnrecognizedPath,
}

/// No two entries share a key.
pub open spec fn keys_unique(s: Seq<CacheEntry>) -> bool {
    forall|i: int, j: int|
        0 <= i < s.len() && 0 <= j < s.len() && i != j ==> #[trigger] s[i].key != #[trigger] s[j].key
}

/// The mapping that a sequence of entries describes.
pub open spec fn entries_map(s: Seq<CacheEntry>) -> Map<CacheKey, EntryMeta>
    decreases s.len(),
{
    if s.len() == 0 {
        Map::empty()
    } else {
        entries_map(s.drop_last()).insert(s.last().key, s.last().meta)
    }
}

/// Sum of the sizes of a sequence of entries.
pub open spec fn total_of(s: Seq<CacheEntry>) -> int
    decreases s.len(),
{
    if s.len() == 0 {
        0
    } else {
        total_of(s.drop_last()) + s.last().meta.size
    }
}

/// The eviction order: older first, ties broken by the key.
pub open spec fn evicts_before(a: CacheEntry, b: CacheEntry) -> bool {
    ||| a.meta.last_used < b.meta.last_used
    ||| a.meta.last_used == b.meta.last_used && a.key.command_hash < b.key.command_hash
    ||| a.meta.last_used == b.meta.last_used && a.key.command_hash == b.key.command_hash
        && a.key.input_hash < b.key.input_hash
}

/// With distinct last-use times, eviction order is the order of those times.
pub proof fn lemma_eviction_follows_time(a: CacheEntry, b: CacheEntry)
    requires
        a.meta.last_used != b.meta.last_used,
    ensures
        evicts_before(a, b) <==> a.meta.last_used < b.meta.last_used,
{
}

pub proof fn lemma_entries_map(s: Seq<CacheEntry>)
    requires
        keys_unique(s),
    ensures
        forall|k: CacheKey|
            entries_map(s).contains_key(k) <==> exists|i: int| 0 <= i < s.len() && #[trigger] s[i].key == k,
        forall|i: int| 0 <= i < s.len() ==> entries_map(s)[#[trigger] s[i].key] == s[i].meta,
    decreases s.len(),
{
    if s.len() > 0 {
        let t = s.drop_last();
        assert(keys_unique(t)) by {
            assert forall|i: int, j: int|
                0 <= i < t.len() && 0 <= j < t.len() && i != j implies #[trigger] t[i].key != #[trigger] t[j].key by {
                assert(t[i] == s[i] && t[j] == s[j]);
            }
        }
        lemma_entries_map(t);
        assert forall|k: CacheKey|
            entries_map(s).contains_key(k) implies exists|i: int| 0 <= i < s.len() && #[trigger] s[i].key == k by {
            if k != s.last().key {
                assert(entries_map(t).contains_key(k));
                assert(exists|i: int| 0 <= i < t.len() && #[trigger] t[i].key == k);
                let i = choose|i: int| 0 <= i < t.len() && #[trigger] t[i].key == k;
                assert(s[i] == t[i]);
                assert(s[i].key == k);
            } else {
                assert(s[s.len() - 1].key == k);
            }
        }
        assert forall|i: int| 0 <= i < s.len() implies entries_map(s)[#[trigger] s[i].key] == s[i].meta by {
            if i < s.len() - 1 {
                assert(s[i] == t[i]);
                assert(s[i].key != s[s.len() - 1].key);
            }
        }
        assert forall|k: CacheKey| (exists|i: int| 0 <= i < s.len() && #[trigger] s[i].key == k) implies entries_map(s).contains_key(k) by {
            let i = choose|i: int| 0 <= i < s.len() && #[trigger] s[i].key == k;
            if i < s.len() - 1 {
                assert(s[i] == t[i]);
            }
        }
    }
}

proof fn lemma_total_remove(s: Seq<CacheEntry>, i: int)
    requires
        0 <= i < s.len(),
    ensures
        total_of(s.remove(i)) == total_of(s) - s[i].meta.size,
    decreases s.len(),
{
    if i < s.len() - 1 {
        let t = s.drop_last();
        lemma_total_remove(t, i);
        assert(s.remove(i).drop_last() == t.remove(i));
        assert(s.remove(i).last() == s.last());
    } else {
        assert(s.remove(i) == s.drop_last());
    }
}

proof fn lemma_total_update(s: Seq<CacheEntry>, i: int, e: CacheEntry)
    requires
        0 <= i < s.len(),
    ensures
        total_of(s.update(i, e)) == total_of(s) - s[i].meta.size + e.meta.size,
    decreases s.len(),
{
    if i < s.len() - 1 {
        lemma_total_update(s.drop_last(), i, e);
        assert(s.update(i, e).drop_last() == s.drop_last().update(i, e));
    } else {
        assert(s.update(i, e).drop_last() == s.drop_last());
    }
}

/// Sum of the sizes that `m` records for the keys `ev`.
pub open spec fn sizes_of(ev: Seq<CacheKey>, m: Map<CacheKey, EntryMeta>) -> int
    decreases ev.len(),
{
    if ev.len() == 0 {
        0
    } else {
        sizes_of(ev.drop_last(), m) + m[ev.last()].size
    }
}

/// `m1` is `m0` without the keys `ev`, which were evicted oldest first until
/// an entry of `prospective` bytes fit under `budget` beside the `total1`
/// bytes that remain, and no further.
pub open spec fn evicts_lru(
    m0: Map<CacheKey, EntryMeta>,
    m1: Map<CacheKey, EntryMeta>,
    ev: Seq<CacheKey>,
    prospective: int,
    budget: int,
    total1: int,
) -> bool {
    &&& prospective + total1 < budget
    &&& ev.no_duplicates()
    &&& m1 == m0.remove_keys(ev.to_set())
    &&& forall|i: int| 0 <= i < ev.len() ==> m0.contains_key(#[trigger] ev[i])
    &&& forall|i: int, j: int|
        0 <= i < j < ev.len() ==> evicts_before(
            CacheEntry { key: #[trigger] ev[i], meta: m0[ev[i]] },
            CacheEntry { key: #[trigger] ev[j], meta: m0[ev[j]] },
        )
    &&& forall|i: int, k: CacheKey|
        0 <= i < ev.len() && #[trigger] m1.contains_key(k) ==> evicts_before(
            CacheEntry { key: #[trigger] ev[i], meta: m0[ev[i]] },
            CacheEntry { key: k, meta: m1[k] },
        )
    &&& ev.len() > 0 ==> prospective + total1 + m0[ev.last()].size >= budget
}

proof fn lemma_total_nonneg(s: Seq<CacheEntry>)
    ensures
        0 <= total_of(s) <= s.len() * 0xffff_ffff_ffff_ffff,
    decreases s.len(),
{
    if s.len() > 0 {
        lemma_total_nonneg(s.drop_last());
    }
}

/// The mapping from cache keys to entry metadata, rooted at a cache directory.
pub struct Inventory {
    cache_root: Vec<u8>,
    entries: Vec<CacheEntry>,
}

impl Inventory {
    pub closed spec fn wf(&self) -> bool {
        keys_unique(self.entries@)
    }

    /// The cache root directory.
    pub closed spec fn root(&self) -> Seq<u8> {
        self.cache_root@
    }

    /// The entries as a mapping.
    pub closed spec fn view(&self) -> Map<CacheKey, EntryMeta> {
        entries_map(self.entries@)
    }

    /// Sum of the sizes of all entries.
    pub closed spec fn total(&self) -> int {
        total_of(self.entries@)
    }

    /// An empty inventory rooted at `cache_root`.
    pub fn new(cache_root: Vec<u8>) -> (r: Self)
        ensures
            r.wf(),
            r@ == Map::<CacheKey, EntryMeta>::empty(),
            r.root() == cache_root@,
            r.total() == 0,
    {
        Inventory { cache_root, entries: Vec::new() }
    }

    /// The cache root directory.
    pub fn cache_root(&self) -> (r: &Vec<u8>)
        ensures
            r@ == self.root(),
    {
        &self.cache_root
    }

    fn find(&self, key: &CacheKey) -> (r: Option<usize>)
        requires
            self.wf(),
        ensures
            match r {
                Some(i) => i < self.entries@.len() && self.entries@[i as int].key == *key,
                None => !self@.contains_key(*key),
            },
    {
        proof {
            lemma_entries_map(self.entries@);
        }
        let mut i: usize = 0;
        while i < self.entries.len()
            invariant
                i <= self.entries@.len(),
                forall|j: int| 0 <= j < i ==> #[trigger] self.entries@[j].key != *key,
            decreases self.entries.len() - i,
        {
            if self.entries[i].key == *key {
                return Some(i);
            }
            i += 1;
        }
        None
    }

    /// The metadata of `key`, if it has an entry.
    pub fn get(&self, key: &CacheKey) -> (r: Option<EntryMeta>)
        requires
            self.wf(),
        ensures
            r == (if self@.contains_key(*key) {
                Some(self@[*key])
            } else {
                None
            }),
    {
        proof {
            lemma_entries_map(self.entries@);
        }
        match self.find(key) {
            Some(i) => Some(self.entries[i].meta),
            None => None,
        }
    }

    /// Records `key` with `size` bytes, used at `now`; any earlier metadata of
    /// `key` is replaced.
    pub fn insert(&mut self, key: CacheKey, size: u64, now: u64)
        requires
            old(self).wf(),
        ensures
            final(self).wf(),
            final(self)@ == old(self)@.insert(key, EntryMeta { last_used: now, size }),
            final(self).root() == old(self).root(),
            final(self).total() == old(self).total() - (if old(self)@.contains_key(key) {
                old(self)@[key].size as int
            } else {
                0
            }) + size,
    {
        let meta = EntryMeta { last_used: now, size };
        let ghost s0 = self.entries@;
        proof {
            lemma_entries_map(s0);
        }
        match self.find(&key) {
            Some(i) => {
                proof {
                    lemma_total_update(s0, i as int, CacheEntry { key, meta });
                    assert(old(self)@[key] == s0[i as int].meta);
                }
                self.entries.set(i, CacheEntry { key, meta });
                let ghost s1 = self.entries@;
                assert(keys_unique(s1)) by {
                    assert forall|a: int, b: int|
                        0 <= a < s1.len() && 0 <= b < s1.len() && a != b implies #[trigger] s1[a].key
                        != #[trigger] s1[b].key by {
                        assert(s1[a].key == s0[a].key && s1[b].key == s0[b].key);
                    }
                }
                proof {
                    lemma_entries_map(s1);
                    assert forall|k: CacheKey|
                        #[trigger] entries_map(s1).contains_key(k) == old(self)@.insert(
                            key,
                            meta,
                        ).contains_key(k) by {
                        if entries_map(s1).contains_key(k) {
                            let j = choose|j: int| 0 <= j < s1.len() && #[trigger] s1[j].key == k;
                            assert(s0[j].key == k);
                        }
                        if old(self)@.contains_key(k) {
                            let j = choose|j: int| 0 <= j < s0.len() && #[trigger] s0[j].key == k;
                            assert(s1[j].key == k);
                        }
                    }
                    assert forall|k: CacheKey| #[trigger]
                        entries_map(s1).contains_key(k) implies entries_map(s1)[k] == old(
                        self,
                    )@.insert(key, meta)[k] by {
                        let j = choose|j: int| 0 <= j < s1.len() && #[trigger] s1[j].key == k;
                        assert(s0[j].key == k);
                    }
                    assert(entries_map(s1) =~= old(self)@.insert(key, meta));
                }
            },
            None => {
                self.entries.push(CacheEntry { key, meta });
                let ghost s1 = self.entries@;
                assert(s1.drop_last() == s0);
                assert(s1.last() == CacheEntry { key, meta });
                assert(keys_unique(s1)) by {
                    assert forall|a: int, b: int|
                        0 <= a < s1.len() && 0 <= b < s1.len() && a != b implies #[trigger] s1[a].key
                        != #[trigger] s1[b].key by {
                        if a < s0.len() && b < s0.len() {
                            assert(s1[a] == s0[a] && s1[b] == s0[b]);
                        } else if a < s0.len() {
                            assert(s1[a] == s0[a]);
                        } else {
                            assert(s1[b] == s0[b]);
                        }
                    }
                }
            },
        }
    }

    /// Removes the entry at `i`, keeping the order of the others.
    fn remove_at(&mut self, i: usize) -> (e: CacheEntry)
        requires
            old(self).wf(),
            i < old(self).entries@.len(),
        ensures
            final(self).wf(),
            e == old(self).entries@[i as int],
            final(self).entries@ == old(self).entries@.remove(i as int),
            final(self)@ == old(self)@.remove(e.key),
            final(self).total() == old(self).total() - e.meta.size,
            final(self).root() == old(self).root(),
    {
        let ghost s0 = self.entries@;
        let e = self.entries.remove(i);
        let ghost s1 = self.entries@;
        proof {
            lemma_total_remove(s0, i as int);
            assert forall|a: int, b: int|
                0 <= a < s1.len() && 0 <= b < s1.len() && a != b implies #[trigger] s1[a].key
                != #[trigger] s1[b].key by {
                let a0 = if a < i { a } else { a + 1 };
                let b0 = if b < i { b } else { b + 1 };
                assert(s1[a] == s0[a0] && s1[b] == s0[b0]);
            }
            lemma_entries_map(s0);
            lemma_entries_map(s1);
            let m1 = old(self)@.remove(e.key);
            assert forall|k: CacheKey| #[trigger] entries_map(s1).contains_key(k) == m1.contains_key(k) by {
                if entries_map(s1).contains_key(k) {
                    let j = choose|j: int| 0 <= j < s1.len() && #[trigger] s1[j].key == k;
                    let j0 = if j < i { j } else { j + 1 };
                    assert(s0[j0] == s1[j]);
                    assert(s0[i as int].key == e.key);
                }
                if m1.contains_key(k) {
                    let j = choose|j: int| 0 <= j < s0.len() && #[trigger] s0[j].key == k;
                    assert(j != i);
                    let j1 = if j < i { j } else { j - 1 };
                    assert(s1[j1] == s0[j]);
                }
            }
            assert forall|k: CacheKey| #[trigger] entries_map(s1).contains_key(k) implies entries_map(s1)[k]
                == m1[k] by {
                let j = choose|j: int| 0 <= j < s1.len() && #[trigger] s1[j].key == k;
                let j0 = if j < i { j } else { j + 1 };
                assert(s0[j0] == s1[j]);
            }
            assert(entries_map(s1) =~= m1);
        }
        e
    }

    /// Removes the entry of `key`, returning its metadata if it had one.
    pub fn remove(&mut self, key: &CacheKey) -> (r: Option<EntryMeta>)
        requires
            old(self).wf(),
        ensures
            final(self).wf(),
            final(self)@ == old(self)@.remove(*key),
            r == (if old(self)@.contains_key(*key) {
                Some(old(self)@[*key])
            } else {
                None
            }),
            final(self).root() == old(self).root(),
            final(self).total() == old(self).total() - (if old(self)@.contains_key(*key) {
                old(self)@[*key].size as int
            } else {
                0
            }),
    {
        proof {
            lemma_entries_map(self.entries@);
        }
        match self.find(key) {
            Some(i) => {
                assert(old(self)@[*key] == self.entries@[i as int].meta);
                let e = self.remove_at(i);
                Some(e.meta)
            },
            None => {
                assert(self@.remove(*key) =~= self@);
                None
            },
        }
    }

    /// Marks the entry of `key`, if there is one, as used at `now`; says
    /// whether there was one.
    pub fn touch(&mut self, key: &CacheKey, now: u64) -> (found: bool)
        requires
            old(self).wf(),
        ensures
            final(self).wf(),
            found == old(self)@.contains_key(*key),
            found ==> final(self)@ == old(self)@.insert(
                *key,
                EntryMeta { last_used: now, size: old(self)@[*key].size },
            ),
            !found ==> final(self)@ == old(self)@,
            final(self).root() == old(self).root(),
            final(self).total() == old(self).total(),
    {
        match self.get(key) {
            Some(m) => {
                self.insert(*key, m.size, now);
                true
            },
            None => false,
        }
    }

    /// The metadata of `key` as it was, if there is an entry; the entry is
    /// then marked as used at `now`.
    pub fn get_and_touch(&mut self, key: &CacheKey, now: u64) -> (r: Option<EntryMeta>)
        requires
            old(self).wf(),
        ensures
            final(self).wf(),
            r == (if old(self)@.contains_key(*key) {
                Some(old(self)@[*key])
            } else {
                None
            }),
            r is Some ==> final(self)@ == old(self)@.insert(
                *key,
                EntryMeta { last_used: now, size: old(self)@[*key].size },
            ),
            r is None ==> final(self)@ == old(self)@,
            final(self).root() == old(self).root(),
    {
        let r = self.get(key);
        self.touch(key, now);
        r
    }

    /// Takes the archive file found at `path`, `size` bytes, last accessed
    /// at `accessed`, as an entry. Paths that do not name an archive leave the
    /// inventory as it is.
    pub fn load_entry(&mut self, path: &[u8], size: u64, accessed: u64) -> (r: Result<
        CacheKey,
        LoadError,
    >)
        requires
            old(self).wf(),
        ensures
            final(self).wf(),
            final(self).root() == old(self).root(),
            r is Ok ==> is_address_of(path@, r->Ok_0),
            match parse_archive_path(path@) {
                Some(k) => r == Ok::<CacheKey, LoadError>(k) && final(self)@ == old(self)@.insert(
                    k,
                    EntryMeta { last_used: accessed, size },
                ),
                None => r == Err::<CacheKey, LoadError>(LoadError::UnrecognizedPath) 
                    && final(self)@ == old(self)@,
            },
    {
        match parse_entry_path(path) {
            Some(k) => {
                self.insert(k, size, accessed);
                Ok(k)
            },
            None => Err(LoadError::UnrecognizedPath),
        }
    }

    /// Where the archive of `key` lives.
    pub fn to_path(&self, key: &CacheKey) -> (r: Vec<u8>)
        ensures
            r@ == archive_path(self.root(), *key),
    {
        key_to_path(self.cache_root.as_slice(), key)
    }

    /// Sum of the sizes of all entries.
    pub fn total_size(&self) -> (r: u128)
        ensures
            r as int == self.total(),
    {
        let mut sum: u128 = 0;
        let mut i: usize = 0;
        let n = self.entries.len();
        while i < n
            invariant
                n == self.entries@.len(),
                i <= self.entries@.len(),
                sum as int == total_of(self.entries@.subrange(0, i as int)),
                sum as int <= i * 0xffff_ffff_ffff_ffff,
            decreases n - i,
        {
            let ghost t = self.entries@.subrange(0, i + 1 as int);
            assert(t.drop_last() == self.entries@.subrange(0, i as int));
            assert((i + 1) * 0xffff_ffff_ffff_ffffnat <= 0x1_0000_0000_0000_0000nat * 0xffff_ffff_ffff_ffffnat) by (nonlinear_arith)
                requires i < 0x1_0000_0000_0000_0000nat;
            sum = sum + self.entries[i].meta.size as u128;
            i += 1;
        }
        assert(self.entries@.subrange(0, i as int) == self.entries@);
        sum
    }

    /// Index of the entry that eviction takes first.
    fn oldest_index(&self) -> (r: usize)
        requires
            self.wf(),
            self.entries@.len() > 0,
        ensures
            r < self.entries@.len(),
            forall|j: int|
                0 <= j < self.entries@.len() && j != r ==> evicts_before(
                    self.entries@[r as int],
                    #[trigger] self.entries@[j],
                ),
    {
        let mut best: usize = 0;
        let mut i: usize = 1;
        while i < self.entries.len()
            invariant
                self.wf(),
                best < i <= self.entries@.len(),
                forall|j: int|
                    0 <= j < i && j != best ==> evicts_before(
                        self.entries@[best as int],
                        #[trigger] self.entries@[j],
                    ),
            decreases self.entries.len() - i,
        {
            let b = self.entries[best];
            let c = self.entries[i];
            let older = c.meta.last_used < b.meta.last_used || (c.meta.last_used == b.meta.last_used
                && (c.key.command_hash < b.key.command_hash || (c.key.command_hash
                == b.key.command_hash && c.key.input_hash < b.key.input_hash)));
            assert(self.entries@[i as int].key != self.entries@[best as int].key);
            if older {
                best = i;
            }
            i += 1;
        }
        best
    }

    /// Evicts least recently used entries until an entry of `prospective`
    /// bytes fits strictly under `budget` beside the rest. Returns the evicted
    /// keys, oldest first, whose archives the caller deletes; or `None`, with
    /// nothing evicted, when `prospective` alone does not fit and the output
    /// is not to be cached. Running out of entries cannot happen: the running
    /// total is the inventory's own sum, and it reaches zero last.
    pub fn make_room(&mut self, prospective: u64, budget: u64) -> (r: Option<
        (Vec<CacheKey>, Vec<EntryMeta>),
    >)
        requires
            old(self).wf(),
        ensures
            final(self).wf(),
            final(self).root() == old(self).root(),
            prospective >= budget ==> r is None && final(self)@ == old(self)@,
            prospective < budget ==> r is Some,
            r matches Some(p) ==> (p.0@.len() == 0 <==> prospective + old(self).total() < budget),
            r matches Some(p) ==> evicts_lru(
                old(self)@,
                final(self)@,
                p.0@,
                prospective as int,
                budget as int,
                final(self).total(),
            ),
            r matches Some(p) ==> final(self).total() == old(self).total() - sizes_of(p.0@, old(self)@),
            r matches Some(p) ==> p.1@.len() == p.0@.len() && forall|i: int|
                0 <= i < p.1@.len() ==> #[trigger] p.1@[i] == old(self)@[p.0@[i]],
    {
        if prospective >= budget {
            return None;
        }
        let ghost m0 = self@;
        let mut total: u128 = self.total_size();
        let mut evicted: Vec<CacheKey> = Vec::new();
        let mut metas: Vec<EntryMeta> = Vec::new();
        let n = self.entries.len();
        proof {
            lemma_total_nonneg(self.entries@);
            assert(n * 0xffff_ffff_ffff_ffffnat + prospective <= u128::MAX) by (nonlinear_arith)
                requires n <= usize::MAX, prospective <= u64::MAX;
            lemma_entries_map(self.entries@);
            assert(m0.remove_keys(evicted@.to_set()) =~= m0);
        }
        while prospective as u128 + total >= budget as u128
            invariant
                self.wf(),
                self.root() == old(self).root(),
                m0 == old(self)@,
                prospective < budget,
                total as int == self.total(),
                total as int + prospective <= u128::MAX,
                evicted@.len() == 0 ==> self.total() == old(self).total(),
                self.total() == old(self).total() - sizes_of(evicted@, m0),
                metas@.len() == evicted@.len(),
                forall|i: int| 0 <= i < metas@.len() ==> #[trigger] metas@[i] == m0[evicted@[i]],
                evicted@.len() > 0 ==> prospective + old(self).total() >= budget,
                self@ == m0.remove_keys(evicted@.to_set()),
                evicted@.no_duplicates(),
                forall|i: int| 0 <= i < evicted@.len() ==> m0.contains_key(#[trigger] evicted@[i]),
                forall|i: int, j: int|
                    0 <= i < j < evicted@.len() ==> evicts_before(
                        CacheEntry { key: #[trigger] evicted@[i], meta: m0[evicted@[i]] },
                        CacheEntry { key: #[trigger] evicted@[j], meta: m0[evicted@[j]] },
                    ),
                forall|i: int, j: int|
                    0 <= i < evicted@.len() && 0 <= j < self.entries@.len() ==> evicts_before(
                        CacheEntry { key: #[trigger] evicted@[i], meta: m0[evicted@[i]] },
                        #[trigger] self.entries@[j],
                    ),
                evicted@.len() > 0 ==> prospective + self.total() + m0[evicted@.last()].size >= budget,
            decreases self.entries@.len(),
        {
            if self.entries.len() == 0 {
                assert(self.total() == 0);
                assert(false);
            }
            let ghost s0 = self.entries@;
            proof {
                lemma_entries_map(s0);
                lemma_total_nonneg(s0);
            }
            let i = self.oldest_index();
            let ghost v0 = self@;
            let e = self.remove_at(i);
            proof {
                lemma_total_nonneg(self.entries@);
                assert(s0[i as int].key == e.key);
                assert(v0.contains_key(e.key) && v0[e.key] == e.meta);
                // the evicted entry's metadata is unchanged from the start
                assert(self@ == old(self)@.remove_keys(evicted@.to_set()).remove(e.key)) by {
                    assert(m0.remove_keys(evicted@.to_set()).contains_key(e.key));
                }
                assert(m0[e.key] == e.meta);
                assert(m0.contains_key(e.key));
                assert(!evicted@.contains(e.key)) by {
                    if evicted@.contains(e.key) {
                        assert(!m0.remove_keys(evicted@.to_set()).contains_key(e.key));
                    }
                }
            }
            total = total - e.meta.size as u128;
            let ghost ev0 = evicted@;
            evicted.push(e.key);
            metas.push(e.meta);
            assert(evicted@.drop_last() == ev0);
            proof {
                assert(evicted@ == ev0.push(e.key));
                assert forall|x: CacheKey| #[trigger] evicted@.to_set().contains(x) == ev0.to_set().insert(
                    e.key,
                ).contains(x) by {
                    if evicted@.contains(x) && x != e.key {
                        let t = choose|t: int| 0 <= t < evicted@.len() && evicted@[t] == x;
                        assert(ev0[t] == x);
                    }
                    if ev0.contains(x) {
                        let t = choose|t: int| 0 <= t < ev0.len() && ev0[t] == x;
                        assert(evicted@[t] == x);
                    }
                    if x == e.key {
                        assert(evicted@[ev0.len() as int] == x);
                    }
                }
                assert(evicted@.to_set() =~= ev0.to_set().insert(e.key));
                assert(self@ =~= m0.remove_keys(evicted@.to_set()));
                let s1 = self.entries@;
                assert forall|a: int, j: int|
                    0 <= a < evicted@.len() && 0 <= j < s1.len() implies evicts_before(
                    CacheEntry { key: #[trigger] evicted@[a], meta: m0[evicted@[a]] },
                    #[trigger] s1[j],
                ) by {
                    let j0 = if j < i { j } else { j + 1 };
                    assert(s1[j] == s0[j0]);
                    if a == ev0.len() {
                        assert(j0 != i);
                    }
                }
                assert forall|a: int, b: int|
                    0 <= a < b < evicted@.len() implies evicts_before(
                    CacheEntry { key: #[trigger] evicted@[a], meta: m0[evicted@[a]] },
                    CacheEntry { key: #[trigger] evicted@[b], meta: m0[evicted@[b]] },
                ) by {
                    if b == ev0.len() {
                        assert(s0[i as int] == e);
                        assert(CacheEntry { key: e.key, meta: m0[e.key] } == e);
                    }
                }
            }
        }
        proof {
            lemma_entries_map(self.entries@);
            let ev = evicted@;
            assert forall|a: int, k: CacheKey|
                0 <= a < ev.len() && #[trigger] self@.contains_key(k) implies evicts_before(
                CacheEntry { key: #[trigger] ev[a], meta: m0[ev[a]] },
                CacheEntry { key: k, meta: self@[k] },
            ) by {
                let j = choose|j: int| 0 <= j < self.entries@.len() && #[trigger] self.entries@[j].key == k;
                assert(self.entries@[j] == CacheEntry { key: k, meta: self@[k] });
            }
        }
        Some((evicted, metas))
    }
}

proof fn lemma_sizes_prefix(ev: Seq<CacheKey>, n: int, m: Map<CacheKey, EntryMeta>)
    requires
        0 <= n <= ev.len(),
    ensures
        sizes_of(ev.take(n), m) <= sizes_of(ev, m),
    decreases ev.len(),
{
    if n < ev.len() {
        lemma_sizes_prefix(ev.drop_last(), n, m);
        assert(ev.drop_last().take(n) == ev.take(n));
    } else {
        assert(ev.take(n) == ev);
    }
}

/// Eviction is deterministic: from one inventory of total `t0`, for one
/// prospective size and budget, the evicted keys are fixed, ties in last use
/// included.
pub proof fn lemma_eviction_unique(
    m0: Map<CacheKey, EntryMeta>,
    ma: Map<CacheKey, EntryMeta>,
    mb: Map<CacheKey, EntryMeta>,
    eva: Seq<CacheKey>,
    evb: Seq<CacheKey>,
    prospective: int,
    budget: int,
    t0: int,
)
    requires
        evicts_lru(m0, ma, eva, prospective, budget, t0 - sizes_of(eva, m0)),
        evicts_lru(m0, mb, evb, prospective, budget, t0 - sizes_of(evb, m0)),
    ensures
        eva == evb,
        ma == mb,
    decreases eva.len() + evb.len(),
{
    // the two agree position by position as far as both go
    assert forall|i: int| 0 <= i < eva.len() && i < evb.len() implies eva[i] == evb[i] by {
        lemma_same_position(m0, ma, mb, eva, evb, prospective, budget, t0, i);
    }
    lemma_prefix_contradiction(m0, ma, mb, eva, evb, prospective, budget, t0);
    assert forall|i: int| 0 <= i < evb.len() && i < eva.len() implies evb[i] == eva[i] by {
        lemma_same_position(m0, ma, mb, eva, evb, prospective, budget, t0, i);
    }
    lemma_prefix_contradiction(m0, mb, ma, evb, eva, prospective, budget, t0);
    assert(eva =~= evb);
}

proof fn lemma_prefix_contradiction(
    m0: Map<CacheKey, EntryMeta>,
    ma: Map<CacheKey, EntryMeta>,
    mb: Map<CacheKey, EntryMeta>,
    eva: Seq<CacheKey>,
    evb: Seq<CacheKey>,
    prospective: int,
    budget: int,
    t0: int,
)
    requires
        evicts_lru(m0, ma, eva, prospective, budget, t0 - sizes_of(eva, m0)),
        evicts_lru(m0, mb, evb, prospective, budget, t0 - sizes_of(evb, m0)),
        forall|i: int| 0 <= i < eva.len() && i < evb.len() ==> eva[i] == #[trigger] evb[i],
    ensures
        eva.len() >= evb.len(),
{
    if eva.len() < evb.len() {
        let d = evb.drop_last();
        assert(eva == d.take(eva.len() as int));
        lemma_sizes_prefix(d, eva.len() as int, m0);
        assert(sizes_of(evb, m0) == sizes_of(d, m0) + m0[evb.last()].size);
    }
}

proof fn lemma_same_position(
    m0: Map<CacheKey, EntryMeta>,
    ma: Map<CacheKey, EntryMeta>,
    mb: Map<CacheKey, EntryMeta>,
    eva: Seq<CacheKey>,
    evb: Seq<CacheKey>,
    prospective: int,
    budget: int,
    t0: int,
    i: int,
)
    requires
        evicts_lru(m0, ma, eva, prospective, budget, t0 - sizes_of(eva, m0)),
        evicts_lru(m0, mb, evb, prospective, budget, t0 - sizes_of(evb, m0)),
        0 <= i < eva.len(),
        i < evb.len(),
    ensures
        forall|k: int| 0 <= k <= i ==> eva[k] == #[trigger] evb[k],
    decreases i,
{
    if i > 0 {
        lemma_same_position(m0, ma, mb, eva, evb, prospective, budget, t0, i - 1);
    }
    let x = eva[i];
    let y = evb[i];
    if x != y {
        let ex = CacheEntry { key: x, meta: m0[x] };
        let ey = CacheEntry { key: y, meta: m0[y] };
        // y comes before x: x is later in evb, or was kept by it
        if evb.contains(x) {
            let j = choose|j: int| 0 <= j < evb.len() && evb[j] == x;
            lemma_earlier_positions(m0, ma, mb, eva, evb, prospective, budget, t0, i, j);
            assert(j > i);
        } else {
            assert(!evb.to_set().contains(x));
            assert(mb.contains_key(x));
            assert(mb[x] == m0[x]);
        }
        assert(evicts_before(ey, ex));
        if eva.contains(y) {
            let j = choose|j: int| 0 <= j < eva.len() && eva[j] == y;
            assert forall|k: int| 0 <= k < i implies evb[k] == #[trigger] eva[k] by {
                assert(eva[k] == evb[k]);
            }
            lemma_earlier_positions(m0, mb, ma, evb, eva, prospective, budget, t0, i, j);
            assert(j > i);
            assert(evicts_before(ex, ey));
        } else {
            assert(!eva.to_set().contains(y));
            assert(ma.contains_key(y));
            assert(ma[y] == m0[y]);
            assert(evicts_before(ex, CacheEntry { key: y, meta: ma[y] }));
        }
    }
}

/// Below position `i` the two agree, so a key at position `i` of `eva` sits in
/// `evb`, if at all, at a position not below `i`.
proof fn lemma_earlier_positions(
    m0: Map<CacheKey, EntryMeta>,
    ma: Map<CacheKey, EntryMeta>,
    mb: Map<CacheKey, EntryMeta>,
    eva: Seq<CacheKey>,
    evb: Seq<CacheKey>,
    prospective: int,
    budget: int,
    t0: int,
    i: int,
    j: int,
)
    requires
        evicts_lru(m0, ma, eva, prospective, budget, t0 - sizes_of(eva, m0)),
        evicts_lru(m0, mb, evb, prospective, budget, t0 - sizes_of(evb, m0)),
        0 <= i < eva.len(),
        i < evb.len(),
        0 <= j < evb.len(),
        evb[j] == eva[i],
        forall|k: int| 0 <= k < i ==> eva[k] == #[trigger] evb[k],
    ensures
        j >= i,
{
    if j < i {
        assert(eva[j] == evb[j]);
        assert(eva[j] == eva[i]);
    }
}

} // verus!
