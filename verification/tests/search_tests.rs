use promptlab::index::{build_index, IndexCache};
use promptlab::model::{DirectoryNode, NodeKind, TreeIndex};
use promptlab::search::load_tree;
use promptlab::ApplicationError;
use promptlab::DIRECTORY_READ_ERROR;

fn file_node(id: &str, title: &str) -> DirectoryNode {
    DirectoryNode {
        id: id.to_string(),
        title: title.to_string(),
        kind: NodeKind::File,
        children: vec![],
    }
}

fn dir_node(id: &str, title: &str, children: Vec<DirectoryNode>) -> DirectoryNode {
    DirectoryNode {
        id: id.to_string(),
        title: title.to_string(),
        kind: NodeKind::Directory,
        children,
    }
}

fn create_test_tree_index(nodes: Vec<DirectoryNode>) -> TreeIndex {
    build_index(nodes)
}

#[test]
fn test_load_tree_no_search_term() {
    let nodes = vec![file_node("1", "file1.txt"), file_node("2", "file2.txt")];
    let tree_index = create_test_tree_index(nodes);

    let result = load_tree(&tree_index, None);

    assert_eq!(result.matched_ids_count, 2);
    assert_eq!(result.results.len(), 2);
}

#[test]
fn test_load_tree_empty_search_term() {
    let nodes = vec![file_node("1", "file.txt")];
    let tree_index = create_test_tree_index(nodes);

    let result = load_tree(&tree_index, Some("".to_string()));

    assert_eq!(result.matched_ids_count, 1);
    assert_eq!(result.results.len(), 1);
}

#[test]
fn test_load_tree_whitespace_only_search_term() {
    let nodes = vec![file_node("1", "file.txt")];
    let tree_index = create_test_tree_index(nodes);

    let result = load_tree(&tree_index, Some("   ".to_string()));

    assert_eq!(result.matched_ids_count, 1);
    assert_eq!(result.results.len(), 1);
}

#[test]
fn test_load_tree_no_matches() {
    let nodes = vec![file_node("1", "file.txt")];
    let tree_index = create_test_tree_index(nodes);

    let result = load_tree(&tree_index, Some("nonexistent".to_string()));

    assert_eq!(result.matched_ids_count, 0);
    assert_eq!(result.results.len(), 0);
}

#[test]
fn test_load_tree_single_file_match() {
    let nodes = vec![dir_node("dir1", "folder", vec![file_node("file1", "document.txt")])];
    let tree_index = create_test_tree_index(nodes);

    let result = load_tree(&tree_index, Some("document".to_string()));

    assert_eq!(result.matched_ids_count, 1);
    assert_eq!(result.results.len(), 1);
    assert_eq!(result.results[0].id, "dir1");
    assert_eq!(result.results[0].children.len(), 1);
    assert_eq!(result.results[0].children[0].id, "file1");
}

#[test]
fn test_load_tree_single_directory_match() {
    let nodes = vec![dir_node(
        "dir1",
        "documents",
        vec![file_node("file1", "file1.txt"), file_node("file2", "file2.txt")],
    )];
    let tree_index = create_test_tree_index(nodes);

    let result = load_tree(&tree_index, Some("documents".to_string()));

    assert_eq!(result.matched_ids_count, 1);
    assert_eq!(result.results.len(), 1);
    assert_eq!(result.results[0].id, "dir1");
    assert_eq!(result.results[0].children.len(), 2);
}

#[test]
fn test_load_tree_multiple_matches_same_branch() {
    let nodes = vec![dir_node(
        "dir1",
        "test_folder",
        vec![
            file_node("file1", "test_file1.txt"),
            file_node("file2", "test_file2.txt"),
        ],
    )];
    let tree_index = create_test_tree_index(nodes);

    let result = load_tree(&tree_index, Some("test".to_string()));

    assert_eq!(result.matched_ids_count, 3);
    assert_eq!(result.results.len(), 1);
    assert_eq!(result.results[0].children.len(), 2);
}

#[test]
fn test_load_tree_multiple_matches_different_branches() {
    let nodes = vec![
        dir_node("dir1", "folder1", vec![file_node("file1", "test.txt")]),
        dir_node("dir2", "folder2", vec![file_node("file2", "test.txt")]),
    ];
    let tree_index = create_test_tree_index(nodes);

    let result = load_tree(&tree_index, Some("test".to_string()));

    assert_eq!(result.matched_ids_count, 2);
    assert_eq!(result.results.len(), 2);
}

#[test]
fn test_load_tree_top_level_match() {
    let nodes = vec![dir_node("dir1", "search_here", vec![file_node("file1", "file.txt")])];
    let tree_index = create_test_tree_index(nodes);

    let result = load_tree(&tree_index, Some("search".to_string()));

    assert_eq!(result.matched_ids_count, 1);
    assert_eq!(result.results.len(), 1);
    assert_eq!(result.results[0].id, "dir1");
    assert_eq!(result.results[0].children.len(), 1);
}

#[test]
fn test_load_tree_deep_nested_match() {
    let nodes = vec![dir_node(
        "root",
        "root",
        vec![dir_node(
            "level1",
            "level1",
            vec![dir_node("level2", "level2", vec![file_node("deep_file", "deep_file.txt")])],
        )],
    )];
    let tree_index = create_test_tree_index(nodes);

    let result = load_tree(&tree_index, Some("deep_file".to_string()));

    assert_eq!(result.matched_ids_count, 1);
    assert_eq!(result.results.len(), 1);
    assert_eq!(result.results[0].id, "root");
    assert_eq!(result.results[0].children[0].id, "level1");
    assert_eq!(result.results[0].children[0].children[0].id, "level2");
    assert_eq!(
        result.results[0].children[0].children[0].children[0].id,
        "deep_file"
    );
}

#[test]
fn test_load_tree_case_sensitive_search() {
    let nodes = vec![file_node("1", "Foo.txt"), file_node("2", "foo.txt")];
    let tree_index = create_test_tree_index(nodes);

    let result = load_tree(&tree_index, Some("foo".to_string()));

    assert_eq!(result.matched_ids_count, 2);
    assert_eq!(result.results.len(), 2);
}

#[test]
fn test_load_tree_partial_string_match() {
    let nodes = vec![file_node("1", "foobar.txt")];
    let tree_index = create_test_tree_index(nodes);

    let result = load_tree(&tree_index, Some("oo".to_string()));

    assert_eq!(result.matched_ids_count, 1);
    assert_eq!(result.results.len(), 1);
}

#[test]
fn test_load_tree_exact_match() {
    let nodes = vec![file_node("1", "test"), file_node("2", "testing")];
    let tree_index = create_test_tree_index(nodes);

    let result = load_tree(&tree_index, Some("test".to_string()));

    assert_eq!(result.matched_ids_count, 2);
}

#[test]
fn test_load_tree_special_characters_in_term() {
    let nodes = vec![file_node("1", "file-123.txt")];
    let tree_index = create_test_tree_index(nodes);

    let result = load_tree(&tree_index, Some("file-123".to_string()));

    assert_eq!(result.matched_ids_count, 1);
    assert_eq!(result.results.len(), 1);
}

#[test]
fn test_load_tree_unicode_in_term_and_titles() {
    let nodes = vec![file_node("1", "文件.txt")];
    let tree_index = create_test_tree_index(nodes);

    let result = load_tree(&tree_index, Some("文件".to_string()));

    assert_eq!(result.matched_ids_count, 1);
    assert_eq!(result.results.len(), 1);
}

#[test]
fn test_load_tree_invalid_path() {
    let path = "/test/nonexistent/path";
    let mut cache = IndexCache::new();

    let listing = Err(ApplicationError { code: DIRECTORY_READ_ERROR, message: None });
    let result = cache.ensure_index(path, listing);

    assert!(result.is_err());
}

#[test]
fn test_load_tree_cache_miss_after_ensure() {
    let path = "/test/cache_test";
    let mut cache = IndexCache::new();

    let nodes = vec![file_node("1", "file.txt")];
    let outcome = cache.ensure_index(path, Ok(nodes));
    assert!(outcome.is_ok());

    let tree_index = cache.get_index(path).expect("index should exist after ensure_index");
    let result = load_tree(tree_index, Some("file".to_string()));

    assert_eq!(result.matched_ids_count, 1);
}

#[test]
fn test_load_tree_pruned_tree_structure() {
    let nodes = vec![dir_node(
        "root",
        "root",
        vec![
            dir_node("dir1", "dir1", vec![file_node("match1", "target.txt")]),
            dir_node("dir2", "dir2", vec![file_node("other", "other.txt")]),
        ],
    )];
    let tree_index = create_test_tree_index(nodes);

    let result = load_tree(&tree_index, Some("target".to_string()));

    assert_eq!(result.matched_ids_count, 1);
    assert_eq!(result.results.len(), 1);
    assert_eq!(result.results[0].children.len(), 1);
    assert_eq!(result.results[0].children[0].id, "dir1");
}

#[test]
fn test_load_tree_matched_count_accuracy() {
    let nodes = vec![dir_node(
        "root",
        "root",
        vec![file_node("match1", "test1.txt"), file_node("match2", "test2.txt")],
    )];
    let tree_index = create_test_tree_index(nodes);

    let result = load_tree(&tree_index, Some("test".to_string()));

    assert_eq!(result.matched_ids_count, 2);
}

#[test]
fn test_load_tree_empty_tree_index() {
    let nodes: Vec<DirectoryNode> = vec![];
    let tree_index = create_test_tree_index(nodes);

    let result_no_term = load_tree(&tree_index, None);
    assert_eq!(result_no_term.matched_ids_count, 0);
    assert_eq!(result_no_term.results.len(), 0);

    let result_with_term = load_tree(&tree_index, Some("test".to_string()));
    assert_eq!(result_with_term.matched_ids_count, 0);
    assert_eq!(result_with_term.results.len(), 0);
}

#[test]
fn test_load_tree_error_propagation_from_ensure_index() {
    let path = "/definitely/does/not/exist/path";
    let mut cache = IndexCache::new();

    let listing = Err(ApplicationError { code: DIRECTORY_READ_ERROR, message: None });
    let result = cache.ensure_index(path, listing);

    assert!(result.is_err());
    assert!(cache.get_index(path).is_none());
}

#[test]
fn test_load_tree_performance_large_tree() {
    let mut nodes = Vec::new();
    for i in 0..1000 {
        nodes.push(file_node(&format!("file{}", i), &format!("file{}.txt", i)));
    }
    let tree_index = create_test_tree_index(nodes);

    let start = std::time::Instant::now();
    let result = load_tree(&tree_index, Some("file500".to_string()));
    let duration = start.elapsed();

    assert_eq!(result.matched_ids_count, 1);
    assert!(duration.as_millis() < 1000);
}

#[test]
fn test_load_tree_duplicate_ids_handling() {
    let nodes = vec![file_node("1", "test1.txt"), file_node("2", "test2.txt")];
    let tree_index = create_test_tree_index(nodes);

    let result = load_tree(&tree_index, Some("test".to_string()));

    assert_eq!(result.matched_ids_count, 2);
    assert_eq!(result.results.len(), 2);
}

#[test]
fn test_search_example_scenario() {
    let nodes = vec![dir_node(
        "root",
        "root",
        vec![
            file_node("root/a.txt", "a.txt"),
            dir_node(
                "root/dir1",
                "dir1",
                vec![
                    file_node("root/dir1/b.txt", "b.txt"),
                    file_node("root/dir1/c.txt", "c.txt"),
                ],
            ),
        ],
    )];
    let tree_index = create_test_tree_index(nodes);

    let result = load_tree(&tree_index, Some("b".to_string()));

    assert_eq!(result.matched_ids_count, 1);
    assert_eq!(result.results.len(), 1);
    assert_eq!(result.results[0].id, "root");
    assert_eq!(result.results[0].children.len(), 1);
    assert_eq!(result.results[0].children[0].id, "root/dir1");
    assert_eq!(result.results[0].children[0].children.len(), 1);
    assert_eq!(result.results[0].children[0].children[0].id, "root/dir1/b.txt");
}

#[test]
fn test_full_tree_counts_every_node() {
    let nodes = vec![
        dir_node(
            "d1",
            "alpha",
            vec![file_node("f1", "one.txt"), dir_node("d2", "beta", vec![file_node("f2", "two.txt")])],
        ),
        file_node("f3", "three.txt"),
    ];
    let tree_index = create_test_tree_index(nodes);

    let full = promptlab::projection::build_full_tree(&tree_index);

    assert_eq!(full.total_nodes, 5);
    assert_eq!(full.nodes.len(), 2);
}

#[test]
fn test_directory_match_surfaces_all_descendants() {
    let nodes = vec![dir_node(
        "top",
        "bundle",
        vec![
            dir_node("mid", "inner", vec![file_node("leaf1", "one.txt")]),
            file_node("leaf2", "two.txt"),
        ],
    )];
    let tree_index = create_test_tree_index(nodes);

    let result = load_tree(&tree_index, Some("bundle".to_string()));

    assert_eq!(result.matched_ids_count, 1);
    let top = &result.results[0];
    assert_eq!(top.children.len(), 2);
    assert_eq!(top.children[0].id, "mid");
    assert_eq!(top.children[0].children.len(), 1);
    assert_eq!(top.children[0].children[0].id, "leaf1");
    assert_eq!(top.children[1].id, "leaf2");
}

#[test]
fn test_matched_count_never_exceeds_hits() {
    let nodes = vec![dir_node(
        "outer",
        "ctx",
        vec![dir_node("inner", "ctx2", vec![file_node("hit", "needle.txt")])],
    )];
    let tree_index = create_test_tree_index(nodes);

    let result = load_tree(&tree_index, Some("needle".to_string()));

    assert_eq!(result.matched_ids_count, 1);
    assert_eq!(result.results[0].id, "outer");
    assert_eq!(result.results[0].children[0].id, "inner");
}
