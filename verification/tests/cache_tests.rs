use promptlab::costcache::{
    count_rendered_tree_tokens, total_cost, CacheEntry, FileCostCache, FileSig, GitCostCache,
    GitTokenCacheEntry,
};
use promptlab::gitmodel::{classify_change, diff_hash, process_status_entry, GitDiffData, RawChange, StatusFlags};
use promptlab::selection_id::{selection_id_for, sort_paths};

fn quiet_flags() -> StatusFlags {
    StatusFlags {
        wt_new: false,
        index_new: false,
        wt_modified: false,
        index_modified: false,
        wt_deleted: false,
        index_deleted: false,
        wt_renamed: false,
        index_renamed: false,
        wt_typechange: false,
        index_typechange: false,
        conflicted: false,
        ignored: false,
    }
}

#[test]
fn test_file_cache_hit_requires_matching_signature() {
    let mut cache = FileCostCache::new();
    cache.set_cache("/tmp/a.txt", 100, 10, 42);

    let live = Some(FileSig { mtime_ms: 100, size: 10 });
    assert_eq!(cache.get_cached_count("/tmp/a.txt", live), Some(42));

    let touched = Some(FileSig { mtime_ms: 101, size: 10 });
    assert_eq!(cache.get_cached_count("/tmp/a.txt", touched), None);

    let resized = Some(FileSig { mtime_ms: 100, size: 11 });
    assert_eq!(cache.get_cached_count("/tmp/a.txt", resized), None);

    assert_eq!(cache.get_cached_count("/tmp/a.txt", None), None);
    assert_eq!(cache.get_cached_count("/tmp/missing.txt", live), None);
}

#[test]
fn test_file_cache_recompute_after_touch() {
    let mut cache = FileCostCache::new();
    cache.set_cache("/tmp/a.txt", 100, 10, 42);

    let touched = Some(FileSig { mtime_ms: 101, size: 10 });
    let cost = cache.process_work_item("/tmp/a.txt", touched, Some(&"fresh text".to_string()));
    assert!(cost > 0);
    assert_eq!(cache.get_cached_count("/tmp/a.txt", touched), Some(cost));
}

#[test]
fn test_work_item_unreadable_file_costs_zero() {
    let mut cache = FileCostCache::new();
    let cost = cache.process_work_item("/tmp/gone.txt", None, None);
    assert_eq!(cost, 0);
    assert_eq!(cache.get_cached_count("/tmp/gone.txt", None), None);
}

#[test]
fn test_cache_loading_is_idempotent_per_root() {
    let mut cache = FileCostCache::new();
    assert!(!cache.is_loaded("/repo"));

    let stored = vec![(
        "/repo/a.txt".to_string(),
        CacheEntry { mtime_ms: 5, size: 7, count: 3 },
    )];
    cache.ensure_cache_loaded_for_dir("/repo", stored);
    assert!(cache.is_loaded("/repo"));
    let live = Some(FileSig { mtime_ms: 5, size: 7 });
    assert_eq!(cache.get_cached_count("/repo/a.txt", live), Some(3));

    let other = vec![(
        "/repo/a.txt".to_string(),
        CacheEntry { mtime_ms: 5, size: 7, count: 99 },
    )];
    cache.ensure_cache_loaded_for_dir("/repo", other);
    assert_eq!(cache.get_cached_count("/repo/a.txt", live), Some(3));
}

#[test]
fn test_git_cache_hit_requires_matching_hash() {
    let mut cache = GitCostCache::new();
    cache.set_git_cache_entry(
        "/repo",
        "src/main.rs",
        GitTokenCacheEntry { diff_hash: "abc".to_string(), token_count: 11 },
    );

    let hit = cache.get_git_cached_entry("/repo", "src/main.rs").unwrap();
    assert_eq!(hit.diff_hash, "abc");
    assert_eq!(hit.token_count, 11);

    let cost = cache.process_git_work_item("/repo", "src/main.rs", "abc", "ignored text");
    assert_eq!(cost, 11);

    let recomputed = cache.process_git_work_item("/repo", "src/main.rs", "def", "+ new line");
    assert!(recomputed > 0);
    let updated = cache.get_git_cached_entry("/repo", "src/main.rs").unwrap();
    assert_eq!(updated.diff_hash, "def");
    assert_eq!(updated.token_count, recomputed);
}

#[test]
fn test_diff_hash_is_stable_and_hexadecimal() {
    let h1 = diff_hash(b"diff --git a b");
    let h2 = diff_hash(b"diff --git a b");
    let h3 = diff_hash(b"diff --git a c");

    assert_eq!(h1, h2);
    assert_ne!(h1, h3);
    assert_eq!(h1.len(), 16);
    assert!(h1.chars().all(|c| c.is_ascii_hexdigit()));
}

#[test]
fn test_selection_id_ignores_order() {
    let a = vec!["/p/one".to_string(), "/p/two".to_string(), "/p/three".to_string()];
    let b = vec!["/p/three".to_string(), "/p/one".to_string(), "/p/two".to_string()];
    let c = vec!["/p/one".to_string(), "/p/two".to_string()];

    let ia = selection_id_for(&a);
    let ib = selection_id_for(&b);
    let ic = selection_id_for(&c);

    assert_eq!(ia, ib);
    assert_ne!(ia, ic);
    assert_eq!(ia.len(), 16);
}

#[test]
fn test_token_counts_are_deterministic() {
    let mut cache = FileCostCache::new();
    let text = "hello world".to_string();
    let c1 = cache.process_work_item("/x", None, Some(&text));
    let c2 = cache.process_work_item("/y", None, Some(&text));
    assert_eq!(c1, c2);
    assert!(c1 > 0);
    assert!(c1 <= "hello world".len());

    let empty = count_rendered_tree_tokens("");
    assert_eq!(empty, 0);
}

#[test]
fn test_total_cost_saturates() {
    assert_eq!(total_cost(&vec![]), 0);
    assert_eq!(total_cost(&vec![1, 2, 3]), 6);
    assert_eq!(total_cost(&vec![usize::MAX, 1]), usize::MAX);
}

#[test]
fn test_classify_change_priorities() {
    let mut st = quiet_flags();
    assert_eq!(classify_change(st), None);

    st.wt_modified = true;
    assert_eq!(classify_change(st).as_deref(), Some("modified"));

    st.wt_typechange = true;
    assert_eq!(classify_change(st).as_deref(), Some("typechange"));

    st.index_new = true;
    assert_eq!(classify_change(st).as_deref(), Some("created"));

    st.wt_deleted = true;
    assert_eq!(classify_change(st).as_deref(), Some("deleted"));

    st.index_renamed = true;
    assert_eq!(classify_change(st).as_deref(), Some("renamed"));

    st.conflicted = true;
    assert_eq!(classify_change(st).as_deref(), Some("conflicted"));
}

#[test]
fn test_process_status_entry_rules() {
    let cache = GitCostCache::new();
    let diffs = vec![(
        "src/lib.rs".to_string(),
        GitDiffData {
            lines_added: 3,
            lines_deleted: 1,
            diff_text: "+ added".to_string(),
            diff_hash: "h1".to_string(),
        },
    )];

    let mut flags = quiet_flags();
    flags.wt_modified = true;

    let entry = RawChange { path: "src/lib.rs".to_string(), flags };
    let (change, work) = process_status_entry(&entry, &diffs, &cache, "/repo").unwrap();
    assert_eq!(change.path, "src/lib.rs");
    assert_eq!(change.change_type, "modified");
    assert_eq!(change.lines_added, 3);
    assert_eq!(change.lines_deleted, 1);
    assert_eq!(change.token_count, None);
    let item = work.unwrap();
    assert_eq!(item.diff_hash, "h1");

    let mut ignored = quiet_flags();
    ignored.wt_modified = true;
    ignored.ignored = true;
    let skipped = process_status_entry(
        &RawChange { path: "src/lib.rs".to_string(), flags: ignored },
        &diffs,
        &cache,
        "/repo",
    );
    assert!(skipped.is_none());
}

#[test]
fn test_sort_paths_orders_bytewise() {
    let v = vec!["b".to_string(), "a/x".to_string(), "a".to_string(), "b".to_string()];
    let sorted = sort_paths(&v);
    assert_eq!(
        sorted,
        vec!["a".to_string(), "a/x".to_string(), "b".to_string(), "b".to_string()]
    );
}

#[test]
fn test_selection_id_separates_ids() {
    let a = vec!["/a/b".to_string(), "/c".to_string()];
    let b = vec!["/a".to_string(), "/b/c".to_string()];
    assert_ne!(selection_id_for(&a), selection_id_for(&b));
}

#[test]
fn test_git_cache_loading_is_idempotent_per_root() {
    let mut cache = GitCostCache::new();
    assert!(!cache.is_loaded("/repo"));

    let stored = vec![(
        "src/a.rs".to_string(),
        GitTokenCacheEntry { diff_hash: "h1".to_string(), token_count: 9 },
    )];
    cache.ensure_git_cache_loaded_for_dir("/repo", stored);
    assert!(cache.is_loaded("/repo"));
    let hit = cache.get_git_cached_entry("/repo", "src/a.rs").unwrap();
    assert_eq!(hit.diff_hash, "h1");
    assert_eq!(hit.token_count, 9);

    let other = vec![(
        "src/a.rs".to_string(),
        GitTokenCacheEntry { diff_hash: "h1".to_string(), token_count: 99 },
    )];
    cache.ensure_git_cache_loaded_for_dir("/repo", other);
    assert_eq!(cache.get_git_cached_entry("/repo", "src/a.rs").unwrap().token_count, 9);
    assert!(cache.get_git_cached_entry("/other", "src/a.rs").is_none());
}

#[test]
fn test_token_count_survives_pathological_whitespace() {
    let mut cache = FileCostCache::new();
    let mut text = String::new();
    for _ in 0..1_200_000 {
        text.push(' ');
    }
    text.push('x');
    text.push('\n');
    let cost = cache.process_work_item("/big", None, Some(&text));
    let again = cache.process_work_item("/big2", None, Some(&text));
    assert_eq!(cost, again);
}

#[test]
fn test_cache_loading_later_entries_win() {
    let mut cache = FileCostCache::new();
    let stored = vec![
        ("/r/a.txt".to_string(), CacheEntry { mtime_ms: 1, size: 2, count: 10 }),
        ("/r/a.txt".to_string(), CacheEntry { mtime_ms: 1, size: 2, count: 20 }),
    ];
    cache.ensure_cache_loaded_for_dir("/r", stored);
    let live = Some(FileSig { mtime_ms: 1, size: 2 });
    assert_eq!(cache.get_cached_count("/r/a.txt", live), Some(20));
}
