//! A bounded recency cache of completed scan results.
//!
//! The cache holds at most `MAX_CACHE_SIZE` entries, keyed by exact string
//! match; a lookup promotes the entry's recency, and an insert at capacity
//! under a fresh key evicts the least-recently-accessed entry. There is no
//! expiry: correctness rests on key equality alone, and the caller builds
//! the key from the root path and its modification time, so a stale tree
//! under the same key is served until the key changes or the entry is
//! evicted.

use crate::tree::DirNode;
use crate::tree::NodeModel;
use crate::tree::deep_clone_node;
use crate::tree::node_view;
use vstd::prelude::*;

verus! {

/// Fixed capacity of the recency cache.
pub const MAX_CACHE_SIZE: usize = 3;

/// Model of one cache entry.
pub struct EntryModel {
    pub key: Seq<char>,
    pub node: NodeModel,
    pub total: u64,
}

struct CacheEntry {
    key: String,
    data: DirNode,
    total_scanned: u64,
}

/// The recency cache; entries stand in recency order, the least recently
/// accessed first.
pub struct LruCache {
    entries: Vec<CacheEntry>,
}

spec fn entry_model(e: CacheEntry) -> EntryModel {
    EntryModel { key: e.key@, node: node_view(e.data), total: e.total_scanned }
}

spec fn entry_models(s: Seq<CacheEntry>) -> Seq<EntryModel> {
    Seq::new(s.len(), |i: int| entry_model(s[i]))
}

impl View for LruCache {
    type V = Seq<EntryModel>;

    closed spec fn view(&self) -> Seq<EntryModel> {
        entry_models(self.entries@)
    }
}

/// No two entries share a key.
pub open spec fn keys_distinct(s: Seq<EntryModel>) -> bool {
    forall|i: int, j: int| 0 <= i < j < s.len() ==> s[i].key != s[j].key
}

/// The cache's invariant: within capacity, keys distinct.
pub open spec fn cache_wf(s: Seq<EntryModel>) -> bool {
    s.len() <= MAX_CACHE_SIZE && keys_distinct(s)
}

pub open spec fn has_key(s: Seq<EntryModel>, k: Seq<char>) -> bool {
    exists|i: int| 0 <= i < s.len() && s[i].key == k
}

pub open spec fn key_index(s: Seq<EntryModel>, k: Seq<char>) -> int {
    choose|i: int| 0 <= i < s.len() && s[i].key == k
}

/// The entry stored under an exactly matching key, if any.
pub open spec fn lookup(s: Seq<EntryModel>, k: Seq<char>) -> Option<EntryModel> {
    if has_key(s, k) {
        Some(s[key_index(s, k)])
    } else {
        None
    }
}

/// The cache after a lookup: a hit moves the entry to the most recent
/// position; a miss changes nothing.
pub open spec fn promote(s: Seq<EntryModel>, k: Seq<char>) -> Seq<EntryModel> {
    if has_key(s, k) {
        s.remove(key_index(s, k)).push(s[key_index(s, k)])
    } else {
        s
    }
}

/// The cache after an insert: a present key is replaced and promoted; a
/// fresh key at capacity evicts the least-recently-accessed entry first.
pub open spec fn put_model(s: Seq<EntryModel>, k: Seq<char>, e: EntryModel) -> Seq<EntryModel> {
    if has_key(s, k) {
        s.remove(key_index(s, k)).push(e)
    } else if s.len() >= MAX_CACHE_SIZE {
        s.drop_first().push(e)
    } else {
        s.push(e)
    }
}

/// With distinct keys, any position holding the key is the key's index.
pub proof fn lemma_key_index_unique(s: Seq<EntryModel>, k: Seq<char>, i: int)
    requires
        keys_distinct(s),
        0 <= i < s.len(),
        s[i].key == k,
    ensures
        has_key(s, k),
        key_index(s, k) == i,
{
    assert(has_key(s, k));
    let j = key_index(s, k);
    if i < j {
        assert(s[i].key != s[j].key);
    } else if j < i {
        assert(s[j].key != s[i].key);
    }
}

impl LruCache {
    /// An empty cache.
    pub fn new() -> (c: LruCache)
        ensures
            c@ == Seq::<EntryModel>::empty(),
            cache_wf(c@),
    {
        let c = LruCache { entries: Vec::new() };
        proof {
            assert(c@ =~= Seq::<EntryModel>::empty());
        }
        c
    }

    /// The position of the entry stored under the key, if any.
    fn find(&self, path: &str) -> (r: Option<usize>)
        requires
            keys_distinct(self@),
        ensures
            match r {
                Some(i) => i < self@.len() && self@[i as int].key == path@ && has_key(self@, path@)
                    && key_index(self@, path@) == i,
                None => !has_key(self@, path@),
            },
    {
        let needle = path.to_owned();
        let n = self.entries.len();
        let mut i: usize = 0;
        while i < n
            invariant
                i <= n,
                n == self.entries@.len(),
                needle@ == path@,
                keys_distinct(self@),
                self@.len() == self.entries@.len(),
                forall|j: int| 0 <= j < self@.len() ==> self@[j] == entry_model(self.entries@[j]),
                forall|j: int| 0 <= j < i ==> self@[j].key != path@,
            decreases n - i,
        {
            if self.entries[i].key == needle {
                proof {
                    lemma_key_index_unique(self@, path@, i as int);
                }
                return Some(i);
            }
            i = i + 1;
        }
        proof {
            assert forall|j: int| 0 <= j < self@.len() implies self@[j].key != path@ by {}
        }
        None
    }

    /// Exact-key lookup. A hit returns a copy of the stored tree and its
    /// item total and promotes the entry's recency; a miss, including a
    /// same-path key at a different modification time, returns nothing
    /// and changes nothing. The filesystem is never consulted.
    pub fn get(&mut self, path: &str) -> (r: Option<(DirNode, u64)>)
        requires
            cache_wf(old(self)@),
        ensures
            cache_wf(final(self)@),
            final(self)@ == promote(old(self)@, path@),
            match lookup(old(self)@, path@) {
                Some(e) => r matches Some(p) && p.0@ == e.node && p.1 == e.total,
                None => r is None && final(self)@ == old(self)@,
            },
    {
        let found = self.find(path);
        match found {
            None => None,
            Some(i) => {
                let ghost s0 = self@;
                let entry = self.entries.remove(i);
                let data_copy = deep_clone_node(&entry.data);
                let total = entry.total_scanned;
                self.entries.push(entry);
                proof {
                    assert(self@ =~= s0.remove(i as int).push(s0[i as int]));
                    lemma_promote_wf(s0, path@);
                }
                Some((data_copy, total))
            },
        }
    }

    /// Insert or replace the entry under the key; at capacity a fresh key
    /// evicts the least-recently-accessed entry first, and the new entry
    /// becomes the most recent.
    pub fn put(&mut self, path: String, data: DirNode, total_scanned: u64)
        requires
            cache_wf(old(self)@),
        ensures
            cache_wf(final(self)@),
            final(self)@ == put_model(
                old(self)@,
                path@,
                EntryModel { key: path@, node: data@, total: total_scanned },
            ),
    {
        let ghost s0 = self@;
        let ghost em = EntryModel { key: path@, node: node_view(data), total: total_scanned };
        let found = self.find(&path);
        match found {
            Some(i) => {
                let _ = self.entries.remove(i);
                self.entries.push(CacheEntry { key: path, data, total_scanned });
                proof {
                    assert(self@ =~= s0.remove(i as int).push(em));
                    lemma_put_wf(s0, path@, em);
                }
            },
            None => {
                if self.entries.len() >= MAX_CACHE_SIZE {
                    let _ = self.entries.remove(0);
                    self.entries.push(CacheEntry { key: path, data, total_scanned });
                    proof {
                        assert(self@ =~= s0.drop_first().push(em));
                        lemma_put_wf(s0, path@, em);
                    }
                } else {
                    self.entries.push(CacheEntry { key: path, data, total_scanned });
                    proof {
                        assert(self@ =~= s0.push(em));
                        lemma_put_wf(s0, path@, em);
                    }
                }
            },
        }
    }

    /// Drop the entry stored under the key, if any.
    pub fn invalidate(&mut self, path: &str)
        requires
            cache_wf(old(self)@),
        ensures
            cache_wf(final(self)@),
            final(self)@ == (if has_key(old(self)@, path@) {
                old(self)@.remove(key_index(old(self)@, path@))
            } else {
                old(self)@
            }),
    {
        let ghost s0 = self@;
        let found = self.find(path);
        if let Some(i) = found {
            let _ = self.entries.remove(i);
            proof {
                assert(self@ =~= s0.remove(i as int));
                lemma_remove_wf(s0, i as int);
            }
        }
    }

    /// Drop every entry.
    pub fn clear(&mut self)
        ensures
            final(self)@ == Seq::<EntryModel>::empty(),
            cache_wf(final(self)@),
    {
        self.entries.clear();
        proof {
            assert(self@ =~= Seq::<EntryModel>::empty());
        }
    }
}

impl Default for LruCache {
    fn default() -> (c: LruCache)
        ensures
            c@ == Seq::<EntryModel>::empty(),
            cache_wf(c@),
    {
        LruCache::new()
    }
}

/// Promotion keeps the invariant.
pub proof fn lemma_promote_wf(s: Seq<EntryModel>, k: Seq<char>)
    requires
        cache_wf(s),
    ensures
        cache_wf(promote(s, k)),
        promote(s, k).len() == s.len(),
{
    if has_key(s, k) {
        let i = key_index(s, k);
        lemma_remove_wf(s, i);
        let r = s.remove(i).push(s[i]);
        assert forall|a: int, b: int| 0 <= a < b < r.len() implies r[a].key != r[b].key by {
            if b < r.len() - 1 {
                assert(r[a] == s.remove(i)[a] && r[b] == s.remove(i)[b]);
            } else {
                assert(r[b] == s[i]);
                let a0 = if a < i {
                    a
                } else {
                    a + 1
                };
                assert(r[a] == s[a0]);
                assert(a0 != i);
                if a0 < i {
                    assert(s[a0].key != s[i].key);
                } else {
                    assert(s[i].key != s[a0].key);
                }
            }
        }
    }
}

/// Dropping one entry keeps the invariant.
pub proof fn lemma_remove_wf(s: Seq<EntryModel>, i: int)
    requires
        cache_wf(s),
        0 <= i < s.len(),
    ensures
        cache_wf(s.remove(i)),
{
    let r = s.remove(i);
    assert forall|a: int, b: int| 0 <= a < b < r.len() implies r[a].key != r[b].key by {
        let a0 = if a < i {
            a
        } else {
            a + 1
        };
        let b0 = if b < i {
            b
        } else {
            b + 1
        };
        assert(r[a] == s[a0] && r[b] == s[b0]);
        assert(s[a0].key != s[b0].key);
    }
}

/// An insert keeps the invariant: the cache never exceeds its capacity,
/// and keys stay distinct.
pub proof fn lemma_put_wf(s: Seq<EntryModel>, k: Seq<char>, e: EntryModel)
    requires
        cache_wf(s),
        e.key == k,
    ensures
        cache_wf(put_model(s, k, e)),
        put_model(s, k, e).len() <= MAX_CACHE_SIZE,
{
    if has_key(s, k) {
        let i = key_index(s, k);
        lemma_remove_wf(s, i);
        let r = s.remove(i).push(e);
        assert forall|a: int, b: int| 0 <= a < b < r.len() implies r[a].key != r[b].key by {
            if b < r.len() - 1 {
                assert(r[a] == s.remove(i)[a] && r[b] == s.remove(i)[b]);
            } else {
                let a0 = if a < i {
                    a
                } else {
                    a + 1
                };
                assert(r[a] == s[a0]);
                assert(a0 != i);
                if a0 < i {
                    assert(s[a0].key != s[i].key);
                } else {
                    assert(s[i].key != s[a0].key);
                }
            }
        }
    } else if s.len() >= MAX_CACHE_SIZE {
        let r = s.drop_first().push(e);
        assert forall|a: int, b: int| 0 <= a < b < r.len() implies r[a].key != r[b].key by {
            if b < r.len() - 1 {
                assert(r[a] == s[a + 1] && r[b] == s[b + 1]);
            } else {
                assert(r[a] == s[a + 1]);
                assert(s[a + 1].key != k);
            }
        }
    } else {
        let r = s.push(e);
        assert forall|a: int, b: int| 0 <= a < b < r.len() implies r[a].key != r[b].key by {
            if b < r.len() - 1 {
            } else {
                assert(r[a] == s[a]);
                assert(s[a].key != k);
            }
        }
    }
}

/// Every entry present after a lookup's promotion was already in the
/// cache.
pub proof fn lemma_promote_membership(s: Seq<EntryModel>, k: Seq<char>)
    ensures
        forall|j: int| 0 <= j < promote(s, k).len() ==> s.contains(#[trigger] promote(s, k)[j]),
{
    if has_key(s, k) {
        let i = key_index(s, k);
        let r = s.remove(i).push(s[i]);
        assert forall|j: int| 0 <= j < r.len() implies s.contains(r[j]) by {
            if j < r.len() - 1 {
                let j0 = if j < i {
                    j
                } else {
                    j + 1
                };
                assert(r[j] == s[j0]);
            } else {
                assert(r[j] == s[i]);
            }
        }
    } else {
        assert(forall|j: int| 0 <= j < s.len() ==> promote(s, k)[j] == s[j]);
    }
}

/// Every entry present after an insert was already in the cache or is
/// the inserted one.
pub proof fn lemma_put_membership(s: Seq<EntryModel>, k: Seq<char>, e: EntryModel)
    ensures
        forall|j: int|
            0 <= j < put_model(s, k, e).len() ==> (#[trigger] put_model(s, k, e)[j] == e
                || s.contains(put_model(s, k, e)[j])),
{
    let r = put_model(s, k, e);
    if has_key(s, k) {
        let i = key_index(s, k);
        assert forall|j: int| 0 <= j < r.len() implies (r[j] == e || s.contains(r[j])) by {
            if j < r.len() - 1 {
                let j0 = if j < i {
                    j
                } else {
                    j + 1
                };
                assert(r[j] == s[j0]);
            }
        }
    } else if s.len() >= MAX_CACHE_SIZE {
        assert forall|j: int| 0 <= j < r.len() implies (r[j] == e || s.contains(r[j])) by {
            if j < r.len() - 1 {
                assert(r[j] == s[j + 1]);
            }
        }
    } else {
        assert forall|j: int| 0 <= j < r.len() implies (r[j] == e || s.contains(r[j])) by {
            if j < r.len() - 1 {
                assert(r[j] == s[j]);
            }
        }
    }
}

/// A result stored under a key is served identically by the next lookup
/// of the same key: the stored tree and total come back unchanged.
pub proof fn lemma_put_then_lookup(s: Seq<EntryModel>, k: Seq<char>, e: EntryModel)
    requires
        cache_wf(s),
        e.key == k,
    ensures
        lookup(put_model(s, k, e), k) == Some(e),
{
    lemma_put_wf(s, k, e);
    let r = put_model(s, k, e);
    assert(r[r.len() - 1] == e);
    lemma_key_index_unique(r, k, r.len() - 1);
}

} // verus!
