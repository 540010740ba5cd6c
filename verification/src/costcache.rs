//! Signature-validated cost caches: per-file token costs keyed by path and
//! validated by the live (mtime, size) signature, and per-diff token costs
//! keyed by repository root and path and validated by the diff's content
//! hash.  Both are plain in-memory maps owned by the caller; persistence is
//! the application's business.

use vstd::prelude::*;

use crate::strutil::{count_tokens_for_text, token_count_of};

verus! {

/// How many computed entries are batched up before the application
/// persists them and emits a progress event.
pub const BATCH_SIZE: usize = 25;

/// A cached file cost: the signature it was computed under and the cost.
#[derive(Clone)]
pub struct CacheEntry {
    pub mtime_ms: u128,
    pub size: u64,
    pub count: usize,
}

/// A live file signature: modification time in milliseconds and size.
#[derive(Clone, Copy, PartialEq, Eq, Structural)]
pub struct FileSig {
    pub mtime_ms: u128,
    pub size: u64,
}

/// The first entry for this key, scanning from the front.
pub open spec fn spec_find(entries: Seq<(String, CacheEntry)>, p: Seq<char>) -> Option<CacheEntry>
    decreases entries.len(),
{
    if entries.len() == 0 {
        Option::None
    } else if entries[0].0@ == p {
        Option::Some(entries[0].1)
    } else {
        spec_find(entries.subrange(1, entries.len() as int), p)
    }
}

/// The last stored entry for this path, if any: later batch entries win,
/// as they do when the batch is replayed in order.
pub open spec fn stored_find(stored: Seq<(String, CacheEntry)>, p: Seq<char>) -> Option<
    CacheEntry,
>
    decreases stored.len(),
{
    if stored.len() == 0 {
        Option::None
    } else if stored.last().0@ == p {
        Option::Some(stored.last().1)
    } else {
        stored_find(stored.drop_last(), p)
    }
}

/// What a lookup answers after merging a stored batch over older entries.
pub open spec fn merged_find(
    older: Seq<(String, CacheEntry)>,
    stored: Seq<(String, CacheEntry)>,
    p: Seq<char>,
) -> Option<CacheEntry> {
    match stored_find(stored, p) {
        Option::Some(e) => Option::Some(e),
        Option::None => spec_find(older, p),
    }
}

/// The per-file token cost cache, plus the set of roots whose persisted
/// entries have already been merged in.
pub struct FileCostCache {
    pub entries: Vec<(String, CacheEntry)>,
    pub loaded_dirs: Vec<String>,
}

impl FileCostCache {
    /// An empty cache with no roots loaded.
    pub fn new() -> (r: FileCostCache)
        ensures
            r.entries@.len() == 0,
            r.loaded_dirs@.len() == 0,
    {
        FileCostCache { entries: Vec::new(), loaded_dirs: Vec::new() }
    }

    /// A cache hit is returned only while the live signature matches the
    /// stored one; any mismatch or absence is a miss.
    pub fn get_cached_count(&self, path: &str, live: Option<FileSig>) -> (r: Option<usize>)
        ensures
            match (live, spec_find(self.entries@, path@)) {
                (Option::Some(sig), Option::Some(e)) => if e.mtime_ms == sig.mtime_ms && e.size
                    == sig.size {
                    r == Some(e.count)
                } else {
                    r is None
                },
                _ => r is None,
            },
    {
        let sig = match live {
            Some(s) => s,
            None => {
                return None;
            },
        };
        let mut k: usize = 0;
        proof {
            assert(self.entries@.subrange(0, self.entries@.len() as int) =~= self.entries@);
        }
        while k < self.entries.len()
            invariant
                live == Some(sig),
                k <= self.entries@.len(),
                spec_find(self.entries@, path@) == spec_find(
                    self.entries@.subrange(k as int, self.entries@.len() as int),
                    path@,
                ),
            decreases self.entries@.len() - k,
        {
            proof {
                let tail = self.entries@.subrange(k as int, self.entries@.len() as int);
                assert(tail[0] == self.entries@[k as int]);
                assert(tail.subrange(1, tail.len() as int) =~= self.entries@.subrange(
                    k + 1,
                    self.entries@.len() as int,
                ));
            }
            if crate::strutil::str_eq(self.entries[k].0.as_str(), path) {
                let e = &self.entries[k].1;
                if e.mtime_ms == sig.mtime_ms && e.size == sig.size {
                    return Some(e.count);
                } else {
                    return None;
                }
            }
            k = k + 1;
        }
        proof {
            assert(self.entries@.subrange(
                self.entries@.len() as int,
                self.entries@.len() as int,
            ) =~= Seq::<(String, CacheEntry)>::empty());
        }
        None
    }

    /// In-memory upsert of one entry; other keys keep their values.
    pub fn set_cache(&mut self, path: &str, mtime_ms: u128, size: u64, count: usize)
        ensures
            spec_find(final(self).entries@, path@) matches Some(e) && e.mtime_ms == mtime_ms
                && e.size == size && e.count == count,
            forall|p: Seq<char>|
                p != path@ ==> spec_find(final(self).entries@, p) == spec_find(
                    old(self).entries@,
                    p,
                ),
            final(self).loaded_dirs@ == old(self).loaded_dirs@,
    {
        let entry = CacheEntry { mtime_ms, size, count };
        let key: String = path.to_owned();
        let ghost pre = self.entries@;
        self.entries.insert(0, entry_pair(key, entry));
        proof {
            let now = self.entries@;
            assert(now[0].0@ == path@ && now[0].1.mtime_ms == mtime_ms && now[0].1.size == size
                && now[0].1.count == count);
            assert(now.subrange(1, now.len() as int) =~= pre);
        }
    }

    /// Whether the persisted entries for this root were already merged.
    pub fn is_loaded(&self, root: &str) -> (r: bool)
        ensures
            r == self.loaded_dirs@.map_values(|s: String| s@).contains(root@),
    {
        let ghost views = self.loaded_dirs@.map_values(|s: String| s@);
        let mut k: usize = 0;
        while k < self.loaded_dirs.len()
            invariant
                k <= self.loaded_dirs@.len(),
                views == self.loaded_dirs@.map_values(|s: String| s@),
                forall|j: int| 0 <= j < k ==> #[trigger] views[j] != root@,
            decreases self.loaded_dirs@.len() - k,
        {
            if crate::strutil::str_eq(self.loaded_dirs[k].as_str(), root) {
                proof {
                    assert(views[k as int] == root@);
                }
                return true;
            }
            k = k + 1;
        }
        proof {
            if views.contains(root@) {
                let j = choose|j: int| 0 <= j < views.len() && views[j] == root@;
                assert(false);
            }
        }
        false
    }

    /// Merges a batch of persisted entries for a root and marks the root
    /// loaded; a root already loaded is left untouched.  Lazy hydration:
    /// called once per root on first use.  After a fresh load, every path
    /// answers with its last stored entry, and paths the batch does not
    /// name keep their previous answers.
    pub fn ensure_cache_loaded_for_dir(&mut self, root: &str, stored: Vec<(String, CacheEntry)>)
        ensures
            old(self).loaded_dirs@.map_values(|s: String| s@).contains(root@) ==> *final(self)
                == *old(self),
            final(self).loaded_dirs@.map_values(|s: String| s@).contains(root@),
            !old(self).loaded_dirs@.map_values(|s: String| s@).contains(root@) ==> forall|
                p: Seq<char>,
            |
                spec_find(final(self).entries@, p) == #[trigger] merged_find(
                    old(self).entries@,
                    stored@,
                    p,
                ),
    {
        if self.is_loaded(root) {
            return ;
        }
        let batch = stored;
        let mut k: usize = 0;
        proof {
            assert(batch@.subrange(0, 0) =~= Seq::<(String, CacheEntry)>::empty());
        }
        while k < batch.len()
            invariant
                k <= batch@.len(),
                forall|p: Seq<char>|
                    spec_find(self.entries@, p) == #[trigger] merged_find(
                        old(self).entries@,
                        batch@.subrange(0, k as int),
                        p,
                    ),
                self.loaded_dirs@ == old(self).loaded_dirs@,
            decreases batch@.len() - k,
        {
            let path: String = batch[k].0.clone();
            let mtime_ms = batch[k].1.mtime_ms;
            let size = batch[k].1.size;
            let count = batch[k].1.count;
            let ghost before = self.entries@;
            self.set_cache(path.as_str(), mtime_ms, size, count);
            proof {
                let pref = batch@.subrange(0, k + 1);
                assert(pref.drop_last() =~= batch@.subrange(0, k as int));
                assert(pref.last() == batch@[k as int]);
                assert forall|p: Seq<char>|
                    spec_find(self.entries@, p) == #[trigger] merged_find(
                        old(self).entries@,
                        pref,
                        p,
                    ) by {
                    if p == batch@[k as int].0@ {
                        assert(spec_find(self.entries@, p) matches Some(e2) && e2.mtime_ms
                            == batch@[k as int].1.mtime_ms && e2.size == batch@[k as int].1.size
                            && e2.count == batch@[k as int].1.count);
                        assert(spec_find(self.entries@, p) == Option::Some(batch@[k as int].1));
                    } else {
                        assert(spec_find(before, p) == merged_find(
                            old(self).entries@,
                            batch@.subrange(0, k as int),
                            p,
                        ));
                        assert(spec_find(self.entries@, p) == spec_find(before, p));
                    }
                }
            }
            k = k + 1;
        }
        proof {
            assert(batch@.subrange(0, batch@.len() as int) =~= batch@);
        }
        let key: String = root.to_owned();
        let ghost pre = self.loaded_dirs@.map_values(|s: String| s@);
        self.loaded_dirs.push(key);
        proof {
            let now = self.loaded_dirs@.map_values(|s: String| s@);
            assert(now =~= pre.push(root@));
            assert(now[now.len() - 1] == root@);
            assert(now.contains(root@));
        }
    }

    /// One unit of background work: return the cached cost when the live
    /// signature validates it, otherwise compute the cost from the content
    /// (an unreadable file counts as zero) and record it under the live
    /// signature when one exists.
    pub fn process_work_item(
        &mut self,
        path: &str,
        live: Option<FileSig>,
        content: Option<&String>,
    ) -> (cost: usize)
        ensures
            ({
                let cached = spec_find(old(self).entries@, path@);
                let hit = live matches Some(sig) && (cached matches Some(e) && e.mtime_ms
                    == sig.mtime_ms && e.size == sig.size);
                if hit {
                    cost == cached->0.count && *final(self) == *old(self)
                } else {
                    cost == (match content {
                        Option::Some(text) => token_count_of(text@),
                        Option::None => 0,
                    }) && (live matches Some(sig) ==> spec_find(final(self).entries@, path@)
                        matches Some(e2) && e2.mtime_ms == sig.mtime_ms && e2.size == sig.size
                        && e2.count == cost) && (live is None ==> *final(self) == *old(self))
                }
            }),
            forall|p: Seq<char>|
                p != path@ ==> spec_find(final(self).entries@, p) == spec_find(
                    old(self).entries@,
                    p,
                ),
            final(self).loaded_dirs@ == old(self).loaded_dirs@,
    {
        if let Some(c) = self.get_cached_count(path, live) {
            return c;
        }
        let cost = match content {
            Some(text) => count_tokens_for_text(text.as_str()),
            None => 0,
        };
        if let Some(sig) = live {
            self.set_cache(path, sig.mtime_ms, sig.size, cost);
        }
        cost
    }
}

/// The cost of an already-rendered tree section, computed directly from
/// its text.
pub fn count_rendered_tree_tokens(rendered_tree: &str) -> (r: usize)
    ensures
        r == token_count_of(rendered_tree@),
{
    count_tokens_for_text(rendered_tree)
}

/// Pairs a key with an entry; keeps struct construction out of closures.
fn entry_pair(key: String, entry: CacheEntry) -> (r: (String, CacheEntry))
    ensures
        r.0 == key,
        r.1 == entry,
{
    (key, entry)
}

/// A cached diff cost: the content hash it was computed under and the cost.
#[derive(Clone)]
pub struct GitTokenCacheEntry {
    pub diff_hash: String,
    pub token_count: usize,
}

/// The first entry for this (root, path) pair, scanning from the front.
pub open spec fn spec_find2(
    entries: Seq<(String, String, GitTokenCacheEntry)>,
    root: Seq<char>,
    path: Seq<char>,
) -> Option<GitTokenCacheEntry>
    decreases entries.len(),
{
    if entries.len() == 0 {
        Option::None
    } else if entries[0].0@ == root && entries[0].1@ == path {
        Option::Some(entries[0].2)
    } else {
        spec_find2(entries.subrange(1, entries.len() as int), root, path)
    }
}

/// The last stored diff entry for this path, if any: later batch entries
/// win, as they do when the batch is replayed in order.
pub open spec fn stored_git_find(
    stored: Seq<(String, GitTokenCacheEntry)>,
    p: Seq<char>,
) -> Option<GitTokenCacheEntry>
    decreases stored.len(),
{
    if stored.len() == 0 {
        Option::None
    } else if stored.last().0@ == p {
        Option::Some(stored.last().1)
    } else {
        stored_git_find(stored.drop_last(), p)
    }
}

/// What a per-root diff lookup answers after merging a stored batch.
pub open spec fn merged_git_find(
    older: Seq<(String, String, GitTokenCacheEntry)>,
    root: Seq<char>,
    stored: Seq<(String, GitTokenCacheEntry)>,
    p: Seq<char>,
) -> Option<GitTokenCacheEntry> {
    match stored_git_find(stored, p) {
        Option::Some(e) => Option::Some(e),
        Option::None => spec_find2(older, root, p),
    }
}

/// The per-diff token cost cache, keyed by repository root and path.
pub struct GitCostCache {
    pub entries: Vec<(String, String, GitTokenCacheEntry)>,
    pub loaded_dirs: Vec<String>,
}

impl GitCostCache {
    /// An empty cache with no roots loaded.
    pub fn new() -> (r: GitCostCache)
        ensures
            r.entries@.len() == 0,
            r.loaded_dirs@.len() == 0,
    {
        GitCostCache { entries: Vec::new(), loaded_dirs: Vec::new() }
    }

    /// The stored entry for this root and path, if any.
    pub fn get_git_cached_entry(&self, root: &str, path: &str) -> (r: Option<GitTokenCacheEntry>)
        ensures
            match spec_find2(self.entries@, root@, path@) {
                Option::Some(e) => r matches Some(e2) && e2.diff_hash@ == e.diff_hash@
                    && e2.token_count == e.token_count,
                Option::None => r is None,
            },
    {
        let mut k: usize = 0;
        proof {
            assert(self.entries@.subrange(0, self.entries@.len() as int) =~= self.entries@);
        }
        while k < self.entries.len()
            invariant
                k <= self.entries@.len(),
                spec_find2(self.entries@, root@, path@) == spec_find2(
                    self.entries@.subrange(k as int, self.entries@.len() as int),
                    root@,
                    path@,
                ),
            decreases self.entries@.len() - k,
        {
            proof {
                let tail = self.entries@.subrange(k as int, self.entries@.len() as int);
                assert(tail[0] == self.entries@[k as int]);
                assert(tail.subrange(1, tail.len() as int) =~= self.entries@.subrange(
                    k + 1,
                    self.entries@.len() as int,
                ));
            }
            if crate::strutil::str_eq(self.entries[k].0.as_str(), root) && crate::strutil::str_eq(
                self.entries[k].1.as_str(),
                path,
            ) {
                let e = &self.entries[k].2;
                return Some(GitTokenCacheEntry { diff_hash: e.diff_hash.clone(), token_count: e.token_count });
            }
            k = k + 1;
        }
        proof {
            assert(self.entries@.subrange(
                self.entries@.len() as int,
                self.entries@.len() as int,
            ) =~= Seq::<(String, String, GitTokenCacheEntry)>::empty());
        }
        None
    }

    /// In-memory upsert of one entry; other keys keep their values.
    pub fn set_git_cache_entry(&mut self, root: &str, path: &str, entry: GitTokenCacheEntry)
        ensures
            spec_find2(final(self).entries@, root@, path@) matches Some(e) && e.diff_hash
                == entry.diff_hash && e.token_count == entry.token_count,
            forall|r2: Seq<char>, p2: Seq<char>|
                !(r2 == root@ && p2 == path@) ==> spec_find2(final(self).entries@, r2, p2)
                    == spec_find2(old(self).entries@, r2, p2),
            final(self).loaded_dirs@ == old(self).loaded_dirs@,
    {
        let rk: String = root.to_owned();
        let pk: String = path.to_owned();
        let ghost pre = self.entries@;
        self.entries.insert(0, triple(rk, pk, entry));
        proof {
            let now = self.entries@;
            assert(now[0].0@ == root@ && now[0].1@ == path@);
            assert(now.subrange(1, now.len() as int) =~= pre);
        }
    }

    /// Whether the persisted diff entries for this root were already merged.
    pub fn is_loaded(&self, root: &str) -> (r: bool)
        ensures
            r == self.loaded_dirs@.map_values(|s: String| s@).contains(root@),
    {
        let ghost views = self.loaded_dirs@.map_values(|s: String| s@);
        let mut k: usize = 0;
        while k < self.loaded_dirs.len()
            invariant
                k <= self.loaded_dirs@.len(),
                views == self.loaded_dirs@.map_values(|s: String| s@),
                forall|j: int| 0 <= j < k ==> #[trigger] views[j] != root@,
            decreases self.loaded_dirs@.len() - k,
        {
            if crate::strutil::str_eq(self.loaded_dirs[k].as_str(), root) {
                proof {
                    assert(views[k as int] == root@);
                }
                return true;
            }
            k = k + 1;
        }
        proof {
            if views.contains(root@) {
                let j = choose|j: int| 0 <= j < views.len() && views[j] == root@;
                assert(false);
            }
        }
        false
    }

    /// Merges a batch of persisted diff entries for a root and marks the
    /// root loaded; a root already loaded is left untouched.  After a
    /// fresh load, every path of this root answers with its last stored
    /// entry, paths the batch does not name keep their previous answers,
    /// and other roots are untouched.
    pub fn ensure_git_cache_loaded_for_dir(
        &mut self,
        root: &str,
        stored: Vec<(String, GitTokenCacheEntry)>,
    )
        ensures
            old(self).loaded_dirs@.map_values(|s: String| s@).contains(root@) ==> *final(self)
                == *old(self),
            final(self).loaded_dirs@.map_values(|s: String| s@).contains(root@),
            !old(self).loaded_dirs@.map_values(|s: String| s@).contains(root@) ==> (forall|
                p: Seq<char>,
            |
                spec_find2(final(self).entries@, root@, p) == #[trigger] merged_git_find(
                    old(self).entries@,
                    root@,
                    stored@,
                    p,
                )) && (forall|r2: Seq<char>, p2: Seq<char>|
                r2 != root@ ==> #[trigger] spec_find2(final(self).entries@, r2, p2) == spec_find2(
                    old(self).entries@,
                    r2,
                    p2,
                )),
    {
        if self.is_loaded(root) {
            return ;
        }
        let batch = stored;
        let mut k: usize = 0;
        proof {
            assert(batch@.subrange(0, 0) =~= Seq::<(String, GitTokenCacheEntry)>::empty());
        }
        while k < batch.len()
            invariant
                k <= batch@.len(),
                forall|p: Seq<char>|
                    spec_find2(self.entries@, root@, p) == #[trigger] merged_git_find(
                        old(self).entries@,
                        root@,
                        batch@.subrange(0, k as int),
                        p,
                    ),
                forall|r2: Seq<char>, p2: Seq<char>|
                    r2 != root@ ==> #[trigger] spec_find2(self.entries@, r2, p2) == spec_find2(
                        old(self).entries@,
                        r2,
                        p2,
                    ),
                self.loaded_dirs@ == old(self).loaded_dirs@,
            decreases batch@.len() - k,
        {
            let path: String = batch[k].0.clone();
            let entry = GitTokenCacheEntry {
                diff_hash: batch[k].1.diff_hash.clone(),
                token_count: batch[k].1.token_count,
            };
            proof {
                assert(entry == batch@[k as int].1);
            }
            let ghost before = self.entries@;
            self.set_git_cache_entry(root, path.as_str(), entry);
            proof {
                let pref = batch@.subrange(0, k + 1);
                assert(pref.drop_last() =~= batch@.subrange(0, k as int));
                assert(pref.last() == batch@[k as int]);
                assert forall|p: Seq<char>|
                    spec_find2(self.entries@, root@, p) == #[trigger] merged_git_find(
                        old(self).entries@,
                        root@,
                        pref,
                        p,
                    ) by {
                    if p == batch@[k as int].0@ {
                        assert(spec_find2(self.entries@, root@, p) matches Some(e2)
                            && e2.diff_hash == batch@[k as int].1.diff_hash && e2.token_count
                            == batch@[k as int].1.token_count);
                        assert(spec_find2(self.entries@, root@, p) == Option::Some(
                            batch@[k as int].1,
                        ));
                    } else {
                        assert(spec_find2(before, root@, p) == merged_git_find(
                            old(self).entries@,
                            root@,
                            batch@.subrange(0, k as int),
                            p,
                        ));
                        assert(spec_find2(self.entries@, root@, p) == spec_find2(
                            before,
                            root@,
                            p,
                        ));
                    }
                }
            }
            k = k + 1;
        }
        proof {
            assert(batch@.subrange(0, batch@.len() as int) =~= batch@);
        }
        let key: String = root.to_owned();
        let ghost pre = self.loaded_dirs@.map_values(|s: String| s@);
        self.loaded_dirs.push(key);
        proof {
            let now = self.loaded_dirs@.map_values(|s: String| s@);
            assert(now =~= pre.push(root@));
            assert(now[now.len() - 1] == root@);
            assert(now.contains(root@));
        }
    }

    /// One unit of git background work: a diff whose stored hash matches is
    /// served from the cache; otherwise the cost is computed from the diff
    /// text and recorded under the diff's content hash.
    pub fn process_git_work_item(
        &mut self,
        root: &str,
        path: &str,
        diff_hash: &str,
        diff_text: &str,
    ) -> (cost: usize)
        ensures
            ({
                let cached = spec_find2(old(self).entries@, root@, path@);
                let hit = cached matches Some(e) && e.diff_hash@ == diff_hash@;
                if hit {
                    cost == cached->0.token_count && *final(self) == *old(self)
                } else {
                    cost == token_count_of(diff_text@) && (spec_find2(
                        final(self).entries@,
                        root@,
                        path@,
                    ) matches Some(e2) && e2.diff_hash@ == diff_hash@ && e2.token_count == cost)
                }
            }),
            forall|r2: Seq<char>, p2: Seq<char>|
                !(r2 == root@ && p2 == path@) ==> spec_find2(final(self).entries@, r2, p2)
                    == spec_find2(old(self).entries@, r2, p2),
            final(self).loaded_dirs@ == old(self).loaded_dirs@,
    {
        match self.get_git_cached_entry(root, path) {
            Some(e) => {
                if crate::strutil::str_eq(e.diff_hash.as_str(), diff_hash) {
                    return e.token_count;
                }
                let cost = count_tokens_for_text(diff_text);
                let hk: String = diff_hash.to_owned();
                self.set_git_cache_entry(
                    root,
                    path,
                    GitTokenCacheEntry { diff_hash: hk, token_count: cost },
                );
                cost
            },
            None => {
                let cost = count_tokens_for_text(diff_text);
                let hk: String = diff_hash.to_owned();
                self.set_git_cache_entry(
                    root,
                    path,
                    GitTokenCacheEntry { diff_hash: hk, token_count: cost },
                );
                cost
            },
        }
    }
}

/// Builds a keyed triple; keeps struct construction out of closures.
fn triple(root: String, path: String, entry: GitTokenCacheEntry) -> (r: (
    String,
    String,
    GitTokenCacheEntry,
))
    ensures
        r.0 == root,
        r.1 == path,
        r.2 == entry,
{
    (root, path, entry)
}

/// The saturating total of a list of costs.
pub open spec fn sum_sat(s: Seq<usize>) -> int
    decreases s.len(),
{
    if s.len() == 0 {
        0
    } else {
        let rest = sum_sat(s.subrange(1, s.len() as int));
        if s[0] + rest > usize::MAX {
            usize::MAX as int
        } else {
            s[0] + rest
        }
    }
}

/// Totals a list of costs, saturating at the machine limit.
pub fn total_cost(counts: &Vec<usize>) -> (r: usize)
    ensures
        r == sum_sat(counts@),
{
    let mut total: usize = 0;
    let mut k: usize = counts.len();
    while k > 0
        invariant
            k <= counts@.len(),
            total == sum_sat(counts@.subrange(k as int, counts@.len() as int)),
        decreases k,
    {
        k = k - 1;
        let c = counts[k];
        proof {
            let tail = counts@.subrange(k as int, counts@.len() as int);
            assert(tail[0] == counts@[k as int]);
            assert(tail.subrange(1, tail.len() as int) =~= counts@.subrange(
                k + 1,
                counts@.len() as int,
            ));
        }
        if c > usize::MAX - total {
            total = usize::MAX;
            proof {
                assert(sum_sat(counts@.subrange(k as int, counts@.len() as int))
                    == usize::MAX as int);
            }
        } else {
            total = total + c;
        }
    }
    proof {
        assert(counts@.subrange(0, counts@.len() as int) =~= counts@);
    }
    total
}

} // verus!
