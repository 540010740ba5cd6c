use promptlab::costcache::FileCostCache;
use promptlab::index::build_index;
use promptlab::model::{DirectoryNode, NodeKind, PickedDirectory, TreeIndex};
use promptlab::paths::PathSet;
use promptlab::picker::{pick_directory_with_picker, DirectoryPicker};
use promptlab::select::{
    all_descendants_selected, any_descendant_selected, clear_selection, compute_indeterminate,
    toggle_selection, update_ancestors_selection,
};

fn file_node(id: &str, title: &str) -> DirectoryNode {
    DirectoryNode {
        id: id.to_string(),
        title: title.to_string(),
        kind: NodeKind::File,
        children: vec![],
    }
}

fn dir_node(id: &str, title: &str, children: Vec<DirectoryNode>) -> DirectoryNode {
    DirectoryNode {
        id: id.to_string(),
        title: title.to_string(),
        kind: NodeKind::Directory,
        children,
    }
}

fn example_index() -> TreeIndex {
    build_index(vec![dir_node(
        "root",
        "root",
        vec![
            file_node("root/a.txt", "a.txt"),
            dir_node(
                "root/dir1",
                "dir1",
                vec![
                    file_node("root/dir1/b.txt", "b.txt"),
                    file_node("root/dir1/c.txt", "c.txt"),
                ],
            ),
        ],
    )])
}

fn to_sorted(mut v: Vec<String>) -> Vec<String> {
    v.sort();
    v
}

struct MockDirectoryPicker {
    result: Option<String>,
}

impl DirectoryPicker for MockDirectoryPicker {
    fn pick_folder(&self) -> Option<String> {
        self.result.clone()
    }
}

#[test]
fn test_pick_directory_success() {
    let mock = MockDirectoryPicker { result: Some("/home/user/documents".to_string()) };

    let result = pick_directory_with_picker(&mock, None);

    assert!(result.is_some());
    let picked = result.unwrap();
    assert_eq!(picked.name, "documents");
    assert_eq!(picked.path, "/home/user/documents");
}

#[test]
fn test_pick_directory_cancelled() {
    let mock = MockDirectoryPicker { result: None };

    let result = pick_directory_with_picker(&mock, None);

    assert!(result.is_none());
}

#[test]
fn test_pick_directory_root_path() {
    let mock = MockDirectoryPicker { result: Some("/".to_string()) };

    let result = pick_directory_with_picker(&mock, None);

    assert!(result.is_some());
    let picked = result.unwrap();
    assert_eq!(picked.path, "/");
}

#[test]
fn test_toggle_directory_selects_whole_subtree() {
    let idx = example_index();
    let cache = FileCostCache::new();
    let result = toggle_selection(&idx, vec![], "root/dir1", &cache, &vec![], None);

    let selected = to_sorted(result.selected_nodes_paths);
    assert_eq!(
        selected,
        vec![
            "root/dir1".to_string(),
            "root/dir1/b.txt".to_string(),
            "root/dir1/c.txt".to_string(),
        ]
    );
    assert!(result.indeterminate_nodes_paths.contains(&"root".to_string()));
}

#[test]
fn test_selection_example_scenario() {
    let idx = build_index(vec![dir_node(
        "dir1",
        "dir1",
        vec![file_node("dir1/b.txt", "b.txt"), file_node("dir1/c.txt", "c.txt")],
    )]);
    let cache = FileCostCache::new();

    let result = toggle_selection(&idx, vec![], "dir1", &cache, &vec![], None);
    let selected = to_sorted(result.selected_nodes_paths.clone());
    assert_eq!(
        selected,
        vec!["dir1".to_string(), "dir1/b.txt".to_string(), "dir1/c.txt".to_string()]
    );
    assert_eq!(result.indeterminate_nodes_paths.len(), 0);

    let result2 = toggle_selection(
        &idx,
        result.selected_nodes_paths,
        "dir1/b.txt",
        &cache,
        &vec![],
        None,
    );
    let selected2 = to_sorted(result2.selected_nodes_paths);
    assert_eq!(selected2, vec!["dir1/c.txt".to_string()]);
    assert_eq!(result2.indeterminate_nodes_paths, vec!["dir1".to_string()]);
}

#[test]
fn test_toggle_deselects_fully_selected_subtree() {
    let idx = example_index();
    let cache = FileCostCache::new();

    let first = toggle_selection(&idx, vec![], "root/dir1", &cache, &vec![], None);
    let second = toggle_selection(
        &idx,
        first.selected_nodes_paths,
        "root/dir1",
        &cache,
        &vec![],
        None,
    );

    assert_eq!(second.selected_nodes_paths.len(), 0);
    assert_eq!(second.indeterminate_nodes_paths.len(), 0);
}

#[test]
fn test_selecting_files_one_at_a_time_converges() {
    let idx = example_index();
    let cache = FileCostCache::new();

    let r1 = toggle_selection(&idx, vec![], "root/dir1/b.txt", &cache, &vec![], None);
    assert!(r1.selected_nodes_paths.contains(&"root/dir1/b.txt".to_string()));
    assert!(!r1.selected_nodes_paths.contains(&"root/dir1".to_string()));
    assert!(r1.indeterminate_nodes_paths.contains(&"root/dir1".to_string()));

    let r2 = toggle_selection(
        &idx,
        r1.selected_nodes_paths,
        "root/dir1/c.txt",
        &cache,
        &vec![],
        None,
    );
    assert!(r2.selected_nodes_paths.contains(&"root/dir1".to_string()));
    assert!(!r2.indeterminate_nodes_paths.contains(&"root/dir1".to_string()));
}

#[test]
fn test_indeterminate_and_selected_stay_disjoint() {
    let idx = example_index();
    let cache = FileCostCache::new();

    let r = toggle_selection(&idx, vec![], "root/dir1/b.txt", &cache, &vec![], None);

    for p in &r.indeterminate_nodes_paths {
        assert!(!r.selected_nodes_paths.contains(p));
    }
    let r2 = toggle_selection(&idx, r.selected_nodes_paths, "root/a.txt", &cache, &vec![], None);
    for p in &r2.indeterminate_nodes_paths {
        assert!(!r2.selected_nodes_paths.contains(p));
    }
}

#[test]
fn test_toggle_unknown_id_is_a_no_op() {
    let idx = example_index();
    let cache = FileCostCache::new();

    let current = vec!["root/a.txt".to_string()];
    let r = toggle_selection(&idx, current.clone(), "root/ghost.txt", &cache, &vec![], None);

    assert_eq!(to_sorted(r.selected_nodes_paths), current);
}

#[test]
fn test_all_and_any_descendants_selected() {
    let idx = example_index();

    let mut sel = PathSet::new();
    sel.insert("root/dir1/b.txt".to_string());
    assert!(any_descendant_selected("root/dir1", &idx, &sel));
    assert!(!all_descendants_selected("root/dir1", &idx, &sel));
    assert!(all_descendants_selected("root/dir1/b.txt", &idx, &sel));

    sel.insert("root/dir1/c.txt".to_string());
    assert!(all_descendants_selected("root/dir1", &idx, &sel));
    assert!(!all_descendants_selected("root", &idx, &sel));
    assert!(!all_descendants_selected("missing", &idx, &sel));
}

#[test]
fn test_update_ancestors_selection_promotes_and_demotes() {
    let idx = example_index();

    let mut sel = PathSet::from_vec(vec![
        "root/dir1/b.txt".to_string(),
        "root/dir1/c.txt".to_string(),
        "root/a.txt".to_string(),
    ]);
    update_ancestors_selection("root/dir1/b.txt", &idx, &mut sel);
    let after = to_sorted(sel.to_vec());
    assert!(after.contains(&"root/dir1".to_string()));
    assert!(after.contains(&"root".to_string()));

    let mut sel2 = PathSet::from_vec(vec![
        "root".to_string(),
        "root/dir1".to_string(),
        "root/dir1/b.txt".to_string(),
    ]);
    update_ancestors_selection("root/dir1/b.txt", &idx, &mut sel2);
    let after2 = to_sorted(sel2.to_vec());
    assert!(!after2.contains(&"root/dir1".to_string()));
    assert!(!after2.contains(&"root".to_string()));
    assert!(after2.contains(&"root/dir1/b.txt".to_string()));
}

#[test]
fn test_compute_indeterminate_lists_partial_directories() {
    let idx = example_index();

    let sel = PathSet::from_vec(vec!["root/dir1/b.txt".to_string()]);
    let indet = compute_indeterminate(&idx, &sel);
    let listed = to_sorted(indet.to_vec());
    assert_eq!(listed, vec!["root".to_string(), "root/dir1".to_string()]);

    let empty = PathSet::new();
    let none = compute_indeterminate(&idx, &empty);
    assert_eq!(none.to_vec().len(), 0);
}

#[test]
fn test_clear_selection_resets_everything() {
    let idx = example_index();
    let cache = FileCostCache::new();

    let r = clear_selection(&idx, &cache, &vec![], None);

    assert_eq!(r.selected_nodes_paths.len(), 0);
    assert_eq!(r.indeterminate_nodes_paths.len(), 0);
    assert_eq!(r.selected_files.len(), 0);
}

#[test]
fn test_selected_files_carry_titles_and_pretty_paths() {
    let idx = build_index(vec![dir_node(
        "/home/user/proj",
        "proj",
        vec![file_node("/home/user/proj/x.rs", "x.rs")],
    )]);
    let cache = FileCostCache::new();
    let home = "/home/user".to_string();

    let r = toggle_selection(
        &idx,
        vec![],
        "/home/user/proj/x.rs",
        &cache,
        &vec![],
        Some(&home),
    );

    assert_eq!(r.selected_files.len(), 1);
    assert_eq!(r.selected_files[0].path, "/home/user/proj/x.rs");
    assert_eq!(r.selected_files[0].title, "x.rs");
    assert_eq!(r.selected_files[0].pretty_path, "~/proj/x.rs");
    assert_eq!(r.selected_files[0].token_count, None);
}

#[test]
fn test_recent_directory_helpers() {
    let picked = PickedDirectory {
        name: "docs".to_string(),
        path: "/home/user/docs".to_string(),
        pretty_path: "~/docs".to_string(),
    };
    assert_eq!(picked.name, "docs");
}
