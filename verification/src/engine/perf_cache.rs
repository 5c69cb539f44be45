//! A cache of parsed trees, keyed by file, fresh while the file's content
//! hash is unchanged, and bounded in size.

use vstd::prelude::*;
use crate::ast::Ast;
use crate::engine::version_manager::{compute_hash, content_hash};
use crate::text::{str_eq, to_owned_string};

verus! {

/// What is known of a file: its path, when it was last modified (seconds
/// since the epoch), its size in bytes and the hash of its content.
#[derive(Debug, Clone)]
pub struct FileMetadata {
    pub path: String,
    pub modified_time: u64,
    pub size: u64,
    pub hash: u64,
}

impl FileMetadata {
    /// The metadata of a file with the given content.
    pub fn from_content(path: &str, modified_time: u64, content: &[u8]) -> (m: FileMetadata)
        ensures
            m.path@ == path@,
            m.modified_time == modified_time,
            m.size == content@.len(),
            m.hash == content_hash(content@),
    {
        FileMetadata { path: to_owned_string(path), modified_time, size: content.len() as u64, hash: compute_hash(content) }
    }

    /// Whether the file was modified after `timestamp`.
    pub fn is_modified_since(&self, timestamp: u64) -> (b: bool)
        ensures
            b == (self.modified_time > timestamp),
    {
        self.modified_time > timestamp
    }
}

/// Counts of a parse cache.
#[derive(Debug, Clone, PartialEq, Eq, Structural)]
pub struct ParseCacheStats {
    pub entry_count: usize,
    pub max_size: usize,
    /// lookups that found a fresh tree
    pub hits: u64,
    /// lookups that found none, or one whose file changed
    pub misses: u64,
}

/// The first index at or after `i` whose entry has key `k`.
pub open spec fn cache_index(keys: Seq<Seq<char>>, k: Seq<char>, i: int) -> Option<int>
    decreases keys.len() - i,
{
    if i < 0 || i >= keys.len() {
        None
    } else if keys[i] == k {
        Some(i)
    } else {
        cache_index(keys, k, i + 1)
    }
}

/// The index of the first entry with the oldest modification time among
/// the first `n` entries.
pub open spec fn oldest_index(times: Seq<u64>, n: int) -> int
    decreases n,
{
    if n <= 1 {
        0
    } else {
        let i = oldest_index(times, n - 1);
        if times[n - 1] < times[i] {
            n - 1
        } else {
            i
        }
    }
}

proof fn lemma_oldest_bounds(times: Seq<u64>, n: int)
    requires
        n >= 1,
    ensures
        0 <= oldest_index(times, n) < n,
    decreases n,
{
    if n > 1 {
        lemma_oldest_bounds(times, n - 1);
    }
}

proof fn lemma_cache_index_found(keys: Seq<Seq<char>>, k: Seq<char>, i: int)
    requires
        0 <= i,
    ensures
        cache_index(keys, k, i) matches Some(j) ==> i <= j < keys.len() && keys[j] == k,
    decreases keys.len() - i,
{
    if i < keys.len() && keys[i] != k {
        lemma_cache_index_found(keys, k, i + 1);
    }
}

/// Trees of parsed files.
pub struct ParseCache {
    entries: Vec<(String, FileMetadata, Ast)>,
    max_size: usize,
    hits: u64,
    misses: u64,
}

impl ParseCache {
    /// The keys of the entries, in order.
    pub closed spec fn keys(&self) -> Seq<Seq<char>> {
        self.entries@.map_values(|e: (String, FileMetadata, Ast)| e.0@)
    }

    /// The modification times of the entries, in order.
    pub closed spec fn times(&self) -> Seq<u64> {
        self.entries@.map_values(|e: (String, FileMetadata, Ast)| e.1.modified_time)
    }

    /// The content hashes of the entries, in order.
    pub closed spec fn hashes(&self) -> Seq<u64> {
        self.entries@.map_values(|e: (String, FileMetadata, Ast)| e.1.hash)
    }

    /// The trees of the entries, in order.
    pub closed spec fn trees(&self) -> Seq<Ast> {
        self.entries@.map_values(|e: (String, FileMetadata, Ast)| e.2)
    }

    pub closed spec fn counts(&self) -> (u64, u64) {
        (self.hits, self.misses)
    }

    pub closed spec fn limit(&self) -> usize {
        self.max_size
    }

    pub fn new(max_size: usize) -> (c: Self)
        ensures
            c.keys().len() == 0,
            c.limit() == max_size,
            c.counts() == (0u64, 0u64),
    {
        let c = ParseCache { entries: Vec::new(), max_size, hits: 0, misses: 0 };
        assert(c.keys() =~= Seq::<Seq<char>>::empty());
        c
    }

    fn find(&self, key: &str) -> (r: Option<usize>)
        ensures
            match r {
                Some(i) => cache_index(self.keys(), key@, 0) == Some(i as int) && i < self.entries@.len(),
                None => cache_index(self.keys(), key@, 0) is None,
            },
    {
        let ghost ks = self.keys();
        let mut i: usize = 0;
        while i < self.entries.len()
            invariant
                i <= self.entries@.len(),
                ks == self.keys(),
                cache_index(ks, key@, 0) == cache_index(ks, key@, i as int),
            decreases self.entries@.len() - i,
        {
            assert(ks[i as int] == self.entries@[i as int].0@);
            if str_eq(self.entries[i].0.as_str(), key) {
                return Some(i);
            }
            i = i + 1;
        }
        None
    }

    /// The cached tree of `key` when its file is unchanged: `current` is what
    /// is known of the file now (`None` when it cannot be read), and the
    /// tree is fresh when the content hashes agree. Counts a hit or a miss
    /// (wrapping at `u64::MAX`).
    pub fn get(&mut self, key: &str, current: Option<&FileMetadata>) -> (r: Option<&Ast>)
        ensures
            final(self).keys() == old(self).keys(),
            final(self).trees() == old(self).trees(),
            final(self).hashes() == old(self).hashes(),
            final(self).times() == old(self).times(),
            final(self).limit() == old(self).limit(),
            match cache_index(old(self).keys(), key@, 0) {
                Some(i) => match current {
                    Some(c) => c.hash == old(self).hashes()[i],
                    None => false,
                },
                None => false,
            } ==> (r == Some(&old(self).trees()[cache_index(old(self).keys(), key@, 0)->Some_0]) && final(self).counts() == (
                vstd::wrapping::u64_specs::wrapping_add(old(self).counts().0, 1),
                old(self).counts().1,
            )),
            !match cache_index(old(self).keys(), key@, 0) {
                Some(i) => match current {
                    Some(c) => c.hash == old(self).hashes()[i],
                    None => false,
                },
                None => false,
            } ==> (r is None && final(self).counts() == (
                old(self).counts().0,
                vstd::wrapping::u64_specs::wrapping_add(old(self).counts().1, 1),
            )),
    {
        let found = self.find(key);
        let fresh = match found {
            Some(i) => match current {
                Some(c) => {
                    assert(self.hashes()[i as int] == self.entries@[i as int].1.hash);
                    c.hash == self.entries[i].1.hash
                },
                None => false,
            },
            None => false,
        };
        if fresh {
            self.hits = self.hits.wrapping_add(1);
            match found {
                Some(i) => {
                    assert(self.trees()[i as int] == self.entries@[i as int].2);
                    Some(&self.entries[i].2)
                },
                None => None,
            }
        } else {
            self.misses = self.misses.wrapping_add(1);
            None
        }
    }

    fn evict_oldest(&mut self)
        ensures
            old(self).entries@.len() == 0 ==> final(self).entries@ == old(self).entries@,
            old(self).entries@.len() > 0 ==> final(self).entries@ == old(self).entries@.remove(
                oldest_index(old(self).times(), old(self).entries@.len() as int),
            ),
            final(self).counts() == old(self).counts(),
            final(self).limit() == old(self).limit(),
    {
        if self.entries.len() == 0 {
            return;
        }
        let ghost ts = self.times();
        let mut best: usize = 0;
        let mut i: usize = 1;
        while i < self.entries.len()
            invariant
                1 <= i <= self.entries@.len(),
                ts == self.times(),
                ts.len() == self.entries@.len(),
                best == oldest_index(ts, i as int),
                best < i,
            decreases self.entries@.len() - i,
        {
            assert(ts[i as int] == self.entries@[i as int].1.modified_time);
            assert(ts[best as int] == self.entries@[best as int].1.modified_time);
            if self.entries[i].1.modified_time < self.entries[best].1.modified_time {
                best = i;
            }
            i = i + 1;
        }
        proof {
            lemma_oldest_bounds(ts, self.entries@.len() as int);
        }
        let _ = self.entries.remove(best);
    }

    /// Caches `ast` for `key` with what is known of its file. When the
    /// cache is full, the entry of the oldest file goes first (the first
    /// such when several are as old); an entry of the same key is replaced.
    pub fn insert(&mut self, key: &str, metadata: FileMetadata, ast: Ast)
        ensures
            final(self).counts() == old(self).counts(),
            final(self).limit() == old(self).limit(),
            ({
                let kept = if old(self).keys().len() >= old(self).limit() && old(self).keys().len() > 0 {
                    old(self).keys().remove(oldest_index(old(self).times(), old(self).keys().len() as int))
                } else {
                    old(self).keys()
                };
                match cache_index(kept, key@, 0) {
                    Some(i) => final(self).keys() == kept && final(self).trees()[i] == ast && final(self).hashes()[i]
                        == metadata.hash && final(self).times()[i] == metadata.modified_time,
                    None => final(self).keys() == kept.push(key@) && final(self).trees().last() == ast
                        && final(self).hashes().last() == metadata.hash && final(self).times().last()
                        == metadata.modified_time,
                }
            }),
    {
        let ghost old_entries = self.entries@;
        if self.entries.len() >= self.max_size {
            self.evict_oldest();
        }
        proof {
            if old(self).keys().len() >= old(self).limit() && old(self).keys().len() > 0 {
                let k = oldest_index(old(self).times(), old(self).keys().len() as int);
                lemma_oldest_bounds(old(self).times(), old(self).keys().len() as int);
                assert(self.keys() =~= old(self).keys().remove(k));
            }
        }
        let ghost gm = metadata;
        let ghost ga = ast;
        let entry = (to_owned_string(key), metadata, ast);
        let ghost before = self.entries@;
        match self.find(key) {
            Some(i) => {
                proof {
                    lemma_cache_index_found(self.keys(), key@, 0);
                    assert(before[i as int].0@ == key@);
                }
                self.entries.set(i, entry);
                proof {
                    assert(self.keys() =~= before.map_values(|e: (String, FileMetadata, Ast)| e.0@));
                    assert(self.trees()[i as int] == ga);
                    assert(self.hashes()[i as int] == gm.hash);
                    assert(self.times()[i as int] == gm.modified_time);
                }
            },
            None => {
                self.entries.push(entry);
                proof {
                    assert(self.keys() =~= before.map_values(|e: (String, FileMetadata, Ast)| e.0@).push(key@));
                    assert(self.trees().last() == ga);
                    assert(self.hashes().last() == gm.hash);
                    assert(self.times().last() == gm.modified_time);
                }
            },
        }
    }

    /// Drops the entry of `key`.
    pub fn invalidate(&mut self, key: &str)
        ensures
            final(self).counts() == old(self).counts(),
            final(self).limit() == old(self).limit(),
            match cache_index(old(self).keys(), key@, 0) {
                Some(i) => final(self).keys() == old(self).keys().remove(i),
                None => final(self).keys() == old(self).keys(),
            },
    {
        let ghost before = self.entries@;
        match self.find(key) {
            Some(i) => {
                let _ = self.entries.remove(i);
                proof {
                    assert(self.keys() =~= old(self).keys().remove(i as int));
                }
            },
            None => {},
        }
    }

    /// Drops every entry and resets the counts.
    pub fn clear(&mut self)
        ensures
            final(self).keys().len() == 0,
            final(self).counts() == (0u64, 0u64),
            final(self).limit() == old(self).limit(),
    {
        self.entries.clear();
        self.hits = 0;
        self.misses = 0;
    }

    /// The counts of the cache.
    pub fn stats(&self) -> (s: ParseCacheStats)
        ensures
            s.entry_count == self.keys().len(),
            s.max_size == self.limit(),
            s.hits == self.counts().0,
            s.misses == self.counts().1,
    {
        ParseCacheStats { entry_count: self.entries.len(), max_size: self.max_size, hits: self.hits, misses: self.misses }
    }
}

} // verus!
