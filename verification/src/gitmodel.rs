//! The version-control model: plain status flags in place of the VCS
//! library's bitmask, change classification, content hashing of diffs, and
//! the assembly of change rows and background work items from the plain
//! data the VCS collaborator extracted.

use vstd::prelude::*;

use core::hash::Hasher;
use std::collections::hash_map::DefaultHasher;
use vstd::std_specs::hash::DefaultHasherAdditionalSpecFns;

use crate::costcache::{spec_find2, GitCostCache, GitTokenCacheEntry};
use crate::strutil::{format_hex16, hex16_of};

verus! {

/// The status bits of one working-tree entry, as plain booleans.
#[derive(Clone, Copy, PartialEq, Eq, Structural)]
pub struct StatusFlags {
    pub wt_new: bool,
    pub index_new: bool,
    pub wt_modified: bool,
    pub index_modified: bool,
    pub wt_deleted: bool,
    pub index_deleted: bool,
    pub wt_renamed: bool,
    pub index_renamed: bool,
    pub wt_typechange: bool,
    pub index_typechange: bool,
    pub conflicted: bool,
    pub ignored: bool,
}

/// The change class of a status, in priority order; `None` for a status
/// that shows nothing reportable.
pub open spec fn spec_classify(st: StatusFlags) -> Option<Seq<char>> {
    if st.conflicted {
        Option::Some("conflicted"@)
    } else if st.wt_renamed || st.index_renamed {
        Option::Some("renamed"@)
    } else if st.wt_deleted || st.index_deleted {
        Option::Some("deleted"@)
    } else if st.wt_new || st.index_new {
        Option::Some("created"@)
    } else if st.wt_typechange || st.index_typechange {
        Option::Some("typechange"@)
    } else if st.wt_modified || st.index_modified {
        Option::Some("modified"@)
    } else {
        Option::None
    }
}

/// Classifies a status into its reported change type.
pub fn classify_change(st: StatusFlags) -> (r: Option<String>)
    ensures
        match spec_classify(st) {
            Option::Some(v) => r matches Some(s) && s@ == v,
            Option::None => r is None,
        },
{
    if st.conflicted {
        Some(String::from_str("conflicted"))
    } else if st.wt_renamed || st.index_renamed {
        Some(String::from_str("renamed"))
    } else if st.wt_deleted || st.index_deleted {
        Some(String::from_str("deleted"))
    } else if st.wt_new || st.index_new {
        Some(String::from_str("created"))
    } else if st.wt_typechange || st.index_typechange {
        Some(String::from_str("typechange"))
    } else if st.wt_modified || st.index_modified {
        Some(String::from_str("modified"))
    } else {
        None
    }
}

/// The hexadecimal content hash of a byte string, as the standard hasher
/// computes it from exactly one write.
pub open spec fn diff_hash_spec(bytes: Seq<u8>) -> Seq<char> {
    hex16_of(DefaultHasher::spec_finish(seq![bytes]))
}

/// Hashes a diff's bytes into the stable hexadecimal form used to validate
/// cached diff costs.
pub fn diff_hash(bytes: &[u8]) -> (r: String)
    ensures
        r@ == diff_hash_spec(bytes@),
{
    let mut hasher = DefaultHasher::new();
    hasher.write(bytes);
    let v = hasher.finish();
    proof {
        assert(Seq::<Seq<u8>>::empty().push(bytes@) =~= seq![bytes@]);
    }
    format_hex16(v)
}

/// One reported change row.
pub struct GitChange {
    pub path: String,
    pub change_type: String,
    pub lines_added: i32,
    pub lines_deleted: i32,
    pub token_count: Option<usize>,
}

/// The per-path diff data the VCS collaborator extracted.
pub struct GitDiffData {
    pub lines_added: i32,
    pub lines_deleted: i32,
    pub diff_text: String,
    pub diff_hash: String,
}

/// One unit of background diff-costing work.
pub struct GitDiffWorkItem {
    pub path: String,
    pub diff_text: String,
    pub diff_hash: String,
}

/// A batched event carrying freshly computed diff costs.
pub struct GitTokenCountsEvent {
    pub root: String,
    pub files: Vec<(String, usize)>,
}

/// The change rows of one status computation.
pub struct GitStatusEvent {
    pub root: String,
    pub changes: Vec<GitChange>,
}

/// One status entry as the VCS collaborator resolved it: the path it
/// reports and its status bits.
pub struct RawChange {
    pub path: String,
    pub flags: StatusFlags,
}

/// The first diff record for this path, scanning from the front.
pub open spec fn diff_lookup(diffs: Seq<(String, GitDiffData)>, p: Seq<char>) -> Option<
    GitDiffData,
> {
    spec_diff_find(diffs, p)
}

/// Recursive scan behind `diff_lookup`.
pub open spec fn spec_diff_find(diffs: Seq<(String, GitDiffData)>, p: Seq<char>) -> Option<
    GitDiffData,
>
    decreases diffs.len(),
{
    if diffs.len() == 0 {
        Option::None
    } else if diffs[0].0@ == p {
        Option::Some(diffs[0].1)
    } else {
        spec_diff_find(diffs.subrange(1, diffs.len() as int), p)
    }
}

/// Looks up the diff data recorded for a path.
fn diff_find(diffs: &Vec<(String, GitDiffData)>, path: &str) -> (r: Option<usize>)
    ensures
        match r {
            Some(k) => (k as int) < diffs@.len() && diffs@[k as int].0@ == path@ && diff_lookup(
                diffs@,
                path@,
            ) == Option::Some(diffs@[k as int].1),
            None => diff_lookup(diffs@, path@) is None,
        },
{
    let mut k: usize = 0;
    proof {
        assert(diffs@.subrange(0, diffs@.len() as int) =~= diffs@);
    }
    while k < diffs.len()
        invariant
            k <= diffs@.len(),
            spec_diff_find(diffs@, path@) == spec_diff_find(
                diffs@.subrange(k as int, diffs@.len() as int),
                path@,
            ),
        decreases diffs@.len() - k,
    {
        proof {
            let tail = diffs@.subrange(k as int, diffs@.len() as int);
            assert(tail[0] == diffs@[k as int]);
            assert(tail.subrange(1, tail.len() as int) =~= diffs@.subrange(
                k + 1,
                diffs@.len() as int,
            ));
        }
        if crate::strutil::str_eq(diffs[k].0.as_str(), path) {
            return Some(k);
        }
        k = k + 1;
    }
    proof {
        assert(diffs@.subrange(diffs@.len() as int, diffs@.len() as int) =~= Seq::<(
            String,
            GitDiffData,
        )>::empty());
    }
    None
}

/// What a classified status entry's row and work item must look like: the
/// row's line counts come from the recorded diff, a cached cost is
/// honoured only under a matching content hash, and a work item exists
/// exactly when a hashable diff still lacks a valid cached cost.
pub open spec fn entry_yields(
    entry: RawChange,
    diffs: Seq<(String, GitDiffData)>,
    cache_entries: Seq<(String, String, GitTokenCacheEntry)>,
    root: Seq<char>,
    c: GitChange,
    w: Option<GitDiffWorkItem>,
) -> bool {
    &&& !entry.flags.ignored
    &&& spec_classify(entry.flags) is Some
    &&& c.path@ == entry.path@
    &&& c.change_type@ == spec_classify(entry.flags)->0
    &&& match diff_lookup(diffs, entry.path@) {
        Option::None => c.lines_added == 0 && c.lines_deleted == 0 && c.token_count is None
            && w is None,
        Option::Some(d) => {
            let cached = spec_find2(cache_entries, root, entry.path@);
            let hit = d.diff_hash@.len() > 0 && (cached matches Some(e) && e.diff_hash@
                == d.diff_hash@);
            &&& c.lines_added == d.lines_added
            &&& c.lines_deleted == d.lines_deleted
            &&& (hit ==> c.token_count == Some(cached->0.token_count) && w is None)
            &&& (!hit ==> c.token_count is None)
            &&& (!hit && d.diff_hash@.len() > 0 ==> (w matches Some(item) && item.path@
                == entry.path@ && item.diff_text@ == d.diff_text@ && item.diff_hash@
                == d.diff_hash@))
            &&& (d.diff_hash@.len() == 0 ==> w is None)
        },
    }
}

/// What one status entry contributes: no row for ignored or unclassified
/// entries, and otherwise a row and optional work item as `entry_yields`
/// prescribes.
pub fn process_status_entry(
    entry: &RawChange,
    diffs: &Vec<(String, GitDiffData)>,
    cache: &GitCostCache,
    root: &str,
) -> (r: Option<(GitChange, Option<GitDiffWorkItem>)>)
    ensures
        entry.flags.ignored || spec_classify(entry.flags) is None ==> r is None,
        !entry.flags.ignored && spec_classify(entry.flags) is Some ==> (r matches Some(pair)
            && entry_yields(*entry, diffs@, cache.entries@, root@, pair.0, pair.1)),
{
    if entry.flags.ignored {
        return None;
    }
    let change_type = match classify_change(entry.flags) {
        Some(ct) => ct,
        None => {
            return None;
        },
    };
    match diff_find(diffs, entry.path.as_str()) {
        None => Some(
            (
                GitChange {
                    path: entry.path.clone(),
                    change_type,
                    lines_added: 0,
                    lines_deleted: 0,
                    token_count: None,
                },
                None,
            ),
        ),
        Some(k) => {
            let d = &diffs[k].1;
            let mut token_count: Option<usize> = None;
            if !d.diff_hash.as_str().is_empty() {
                if let Some(e) = cache.get_git_cached_entry(root, entry.path.as_str()) {
                    if crate::strutil::str_eq(e.diff_hash.as_str(), d.diff_hash.as_str()) {
                        token_count = Some(e.token_count);
                    }
                }
            }
            let work: Option<GitDiffWorkItem> = if !d.diff_hash.as_str().is_empty()
                && token_count.is_none() {
                Some(
                    GitDiffWorkItem {
                        path: entry.path.clone(),
                        diff_text: d.diff_text.clone(),
                        diff_hash: d.diff_hash.clone(),
                    },
                )
            } else {
                None
            };
            Some(
                (
                    GitChange {
                        path: entry.path.clone(),
                        change_type,
                        lines_added: d.lines_added,
                        lines_deleted: d.lines_deleted,
                        token_count,
                    },
                    work,
                ),
            )
        },
    }
}

/// A status entry earns a row: not ignored, and classifiable.
pub open spec fn qualifies(entry: RawChange) -> bool {
    !entry.flags.ignored && spec_classify(entry.flags) is Some
}

/// The indices of the qualifying entries among the first `k`, in order.
pub open spec fn qualifying_upto(entries: Seq<RawChange>, k: int) -> Seq<int>
    decreases k,
{
    if k <= 0 {
        Seq::empty()
    } else {
        qualifying_upto(entries, k - 1) + (if qualifies(entries[k - 1]) {
            seq![k - 1]
        } else {
            Seq::empty()
        })
    }
}

/// A qualifying entry still owes background work: its diff is hashable
/// and no cached cost under that hash exists.
pub open spec fn work_needed(
    entry: RawChange,
    diffs: Seq<(String, GitDiffData)>,
    cache_entries: Seq<(String, String, GitTokenCacheEntry)>,
    root: Seq<char>,
) -> bool {
    &&& qualifies(entry)
    &&& match diff_lookup(diffs, entry.path@) {
        Option::Some(d) => d.diff_hash@.len() > 0 && !(spec_find2(cache_entries, root, entry.path@)
            matches Some(e) && e.diff_hash@ == d.diff_hash@),
        Option::None => false,
    }
}

/// The indices of the work-owing entries among the first `k`, in order.
pub open spec fn work_upto(
    entries: Seq<RawChange>,
    diffs: Seq<(String, GitDiffData)>,
    cache_entries: Seq<(String, String, GitTokenCacheEntry)>,
    root: Seq<char>,
    k: int,
) -> Seq<int>
    decreases k,
{
    if k <= 0 {
        Seq::empty()
    } else {
        work_upto(entries, diffs, cache_entries, root, k - 1) + (if work_needed(
            entries[k - 1],
            diffs,
            cache_entries,
            root,
        ) {
            seq![k - 1]
        } else {
            Seq::empty()
        })
    }
}

/// A work item carries exactly the recorded diff of its entry's path.
pub open spec fn work_item_for(
    entry: RawChange,
    diffs: Seq<(String, GitDiffData)>,
    item: GitDiffWorkItem,
) -> bool {
    match diff_lookup(diffs, entry.path@) {
        Option::Some(d) => item.path@ == entry.path@ && item.diff_text@ == d.diff_text@
            && item.diff_hash@ == d.diff_hash@,
        Option::None => false,
    }
}

/// Row `c` is what status entry `k` yields, for some work disposition.
pub open spec fn row_yielded(
    entries: Seq<RawChange>,
    diffs: Seq<(String, GitDiffData)>,
    cache_entries: Seq<(String, String, GitTokenCacheEntry)>,
    root: Seq<char>,
    k: int,
    c: GitChange,
) -> bool {
    exists|w: Option<GitDiffWorkItem>|
        #![trigger entry_yields(entries[k], diffs, cache_entries, root, c, w)]
        0 <= k < entries.len() && entry_yields(entries[k], diffs, cache_entries, root, c, w)
}

/// Assembles the change rows and the outstanding work items: exactly one
/// row per qualifying status entry, in input order, each as `entry_yields`
/// prescribes, and exactly one work item per entry that still owes
/// background work, carrying its recorded diff.
pub fn assemble_git_changes(
    entries: &Vec<RawChange>,
    diffs: &Vec<(String, GitDiffData)>,
    cache: &GitCostCache,
    root: &str,
) -> (r: (Vec<GitChange>, Vec<GitDiffWorkItem>))
    ensures
        r.0@.len() == qualifying_upto(entries@, entries@.len() as int).len(),
        forall|t: int|
            0 <= t < r.0@.len() ==> #[trigger] row_yielded(
                entries@,
                diffs@,
                cache.entries@,
                root@,
                qualifying_upto(entries@, entries@.len() as int)[t],
                r.0@[t],
            ),
        r.1@.len() == work_upto(entries@, diffs@, cache.entries@, root@, entries@.len() as int).len(),
        forall|t: int|
            0 <= t < r.1@.len() ==> work_item_for(
                entries@[work_upto(entries@, diffs@, cache.entries@, root@, entries@.len() as int)[t]],
                diffs@,
                #[trigger] r.1@[t],
            ),
        forall|t: int|
            0 <= t < r.1@.len() ==> (#[trigger] r.1@[t].diff_hash@).len() > 0,
{
    let mut changes: Vec<GitChange> = Vec::new();
    let mut work: Vec<GitDiffWorkItem> = Vec::new();
    let mut k: usize = 0;
    while k < entries.len()
        invariant
            k <= entries@.len(),
            changes@.len() == qualifying_upto(entries@, k as int).len(),
            forall|t: int|
                0 <= t < changes@.len() ==> #[trigger] row_yielded(
                    entries@,
                    diffs@,
                    cache.entries@,
                    root@,
                    qualifying_upto(entries@, k as int)[t],
                    changes@[t],
                ),
            work@.len() == work_upto(entries@, diffs@, cache.entries@, root@, k as int).len(),
            forall|t: int|
                0 <= t < work@.len() ==> work_item_for(
                    entries@[work_upto(entries@, diffs@, cache.entries@, root@, k as int)[t]],
                    diffs@,
                    #[trigger] work@[t],
                ),
            forall|t: int| 0 <= t < work@.len() ==> (#[trigger] work@[t].diff_hash@).len() > 0,
        decreases entries@.len() - k,
    {
        let ghost pre_changes = changes@;
        let ghost pre_work = work@;
        let ghost q0 = qualifying_upto(entries@, k as int);
        let ghost w0 = work_upto(entries@, diffs@, cache.entries@, root@, k as int);
        let ghost q1 = qualifying_upto(entries@, k + 1);
        let ghost w1 = work_upto(entries@, diffs@, cache.entries@, root@, k + 1);
        match process_status_entry(&entries[k], diffs, cache, root) {
            Some(pair) => {
                let (c, w) = pair;
                let ghost wg = w;
                changes.push(c);
                proof {
                    let ghost ki = k as int;
                    assert(qualifies(entries@[ki]));
                    assert(q1 =~= q0 + seq![ki]);
                    assert(entry_yields(
                        entries@[ki],
                        diffs@,
                        cache.entries@,
                        root@,
                        changes@[changes@.len() - 1],
                        wg,
                    ));
                    assert forall|t: int|
                        0 <= t < changes@.len() implies #[trigger] row_yielded(
                        entries@,
                        diffs@,
                        cache.entries@,
                        root@,
                        q1[t],
                        changes@[t],
                    ) by {
                        if t < changes@.len() - 1 {
                            assert(changes@[t] == pre_changes[t]);
                            assert(q1[t] == q0[t]);
                        } else {
                            assert(q1[t] == ki);
                            assert(entry_yields(
                                entries@[ki],
                                diffs@,
                                cache.entries@,
                                root@,
                                changes@[t],
                                wg,
                            ));
                        }
                    }
                    assert(work_needed(entries@[ki], diffs@, cache.entries@, root@) <==> wg
                        is Some) by {
                        match diff_lookup(diffs@, entries@[ki].path@) {
                            Option::Some(d) => {},
                            Option::None => {},
                        }
                    }
                }
                match w {
                    Some(item) => {
                        proof {
                            assert(item.diff_hash@.len() > 0);
                            assert(w1 =~= w0 + seq![k as int]);
                            assert(work_item_for(entries@[k as int], diffs@, item));
                        }
                        work.push(item);
                        proof {
                            assert forall|t: int|
                                0 <= t < work@.len() implies work_item_for(
                                entries@[w1[t]],
                                diffs@,
                                #[trigger] work@[t],
                            ) by {
                                if t < work@.len() - 1 {
                                    assert(work@[t] == pre_work[t]);
                                    assert(w1[t] == w0[t]);
                                } else {
                                    assert(w1[t] == k as int);
                                }
                            }
                        }
                    },
                    None => {
                        proof {
                            assert(w1 =~= w0);
                        }
                    },
                }
            },
            None => {
                proof {
                    assert(!qualifies(entries@[k as int]));
                    assert(q1 =~= q0);
                    assert(w1 =~= w0);
                }
            },
        }
        k = k + 1;
    }
    (changes, work)
}

} // verus!
