use promptlab::clipboard::{
    build_clipboard_content, build_file_tree, build_git_diff, build_instruction_sections,
    build_web_pages_section, format_instruction_entries, get_rendered_tree, page_not_found,
    wrap_file_block,
};
use promptlab::index::build_index;
use promptlab::instructions::{truncate_content, ContentLengthMode, Instruction, SavedInstruction};
use promptlab::model::{DirectoryNode, NodeKind, PickedDirectory};
use promptlab::paths::PathSet;
use promptlab::recent::update_recent_directories;
use promptlab::render::{render_full_tree, render_selected_tree};
use promptlab::scrape::extract_title;
use promptlab::strutil::pretty_directory_path;

fn file_node(id: &str, title: &str) -> DirectoryNode {
    DirectoryNode {
        id: id.to_string(),
        title: title.to_string(),
        kind: NodeKind::File,
        children: vec![],
    }
}

fn dir_node(id: &str, title: &str, children: Vec<DirectoryNode>) -> DirectoryNode {
    DirectoryNode {
        id: id.to_string(),
        title: title.to_string(),
        kind: NodeKind::Directory,
        children,
    }
}

fn create_picked_directory(name: &str, path: &str) -> PickedDirectory {
    PickedDirectory {
        name: name.to_string(),
        path: path.to_string(),
        pretty_path: path.to_string(),
    }
}

fn sample_forest() -> Vec<DirectoryNode> {
    vec![dir_node(
        "root",
        "root",
        vec![
            file_node("root/a.txt", "a.txt"),
            dir_node("root/dir1", "dir1", vec![file_node("root/dir1/b.txt", "b.txt")]),
        ],
    )]
}

#[test]
fn test_render_full_tree_layout() {
    let forest = sample_forest();
    let selected = PathSet::from_vec(vec!["root/a.txt".to_string()]);

    let rendered = render_full_tree(&forest, &selected);

    assert_eq!(
        rendered,
        "└── root\n    ├── a.txt *\n    └── dir1\n        └── b.txt"
    );
}

#[test]
fn test_render_selected_tree_prunes_unselected_branches() {
    let forest = sample_forest();
    let selected = PathSet::from_vec(vec!["root/dir1/b.txt".to_string()]);

    let rendered = render_selected_tree(&forest, &selected);

    assert_eq!(rendered, "└── root\n    └── dir1\n        └── b.txt *");
}

#[test]
fn test_render_empty_forest_is_empty() {
    let forest: Vec<DirectoryNode> = vec![];
    let selected = PathSet::new();
    assert_eq!(render_full_tree(&forest, &selected), "");
    assert_eq!(render_selected_tree(&forest, &selected), "");
}

#[test]
fn test_get_rendered_tree_modes() {
    let forest = sample_forest();
    let selected = PathSet::from_vec(vec!["root/dir1/b.txt".to_string()]);

    let full = get_rendered_tree("full", &forest, &selected);
    let sel = get_rendered_tree("selected", &forest, &selected);
    let none = get_rendered_tree("none", &forest, &selected);
    let other = get_rendered_tree("bogus", &forest, &selected);

    assert!(full.contains("a.txt"));
    assert!(!sel.contains("a.txt"));
    assert_eq!(none, "");
    assert_eq!(other, "");
}

#[test]
fn test_build_file_tree_wraps_rendered_tree() {
    assert_eq!(build_file_tree("", "/repo"), "");

    let section = build_file_tree("└── x", "/repo");
    assert_eq!(
        section,
        "<file_tree>\n/repo\n└── x\n\nThe contents of the files marked with an asterisk (*) are included below.\n</file_tree>\n"
    );
}

#[test]
fn test_build_git_diff_sections() {
    let no_paths: Vec<String> = vec![];
    assert_eq!(build_git_diff(&no_paths, Some(&"+x".to_string())), "");

    let paths = vec!["a.rs".to_string()];
    assert_eq!(build_git_diff(&paths, None), "");
    assert_eq!(
        build_git_diff(&paths, Some(&"+ line".to_string())),
        "\n<git_diff>\n+ line\n</git_diff>\n"
    );
}

#[test]
fn test_build_clipboard_content_layout() {
    let paths = vec!["a.rs".to_string()];
    let diff = "+ one".to_string();
    let payload = build_clipboard_content(&paths, Some(&diff), "FILE BODY", "└── x", "/repo");

    let expected_tree = build_file_tree("└── x", "/repo");
    let expected = format!(
        "{}\n<file_contents>\nFILE BODY\n</file_contents>\n\n<git_diff>\n+ one\n</git_diff>\n\n",
        expected_tree
    );
    assert_eq!(payload, expected);
}

#[test]
fn test_wrap_file_block_format() {
    let block = wrap_file_block("/p/x.rs", "rs", "fn main() {}\n");
    assert_eq!(block, "File: /p/x.rs\n```rs\nfn main() {}\n```");
}

#[test]
fn test_build_web_pages_section_joins_pages() {
    let none: Vec<String> = vec![];
    assert_eq!(build_web_pages_section(&none), "");

    let pages = vec!["page one".to_string(), "page two".to_string()];
    assert_eq!(
        build_web_pages_section(&pages),
        "<web_pages>\npage one\n\n* * *\n\npage two\n</web_pages>\n"
    );
}

#[test]
fn test_format_instruction_entries_trims_and_joins() {
    let entries = vec![
        Instruction { name: "first".to_string(), content: "body one\n".to_string() },
        Instruction { name: "second".to_string(), content: "body two".to_string() },
    ];
    let formatted = format_instruction_entries(&entries);
    assert_eq!(formatted, "first\nbody one\n\nsecond\nbody two");

    let empty: Vec<Instruction> = vec![];
    assert_eq!(format_instruction_entries(&empty), "");
}

#[test]
fn test_build_instruction_sections_tags() {
    let meta = vec![SavedInstruction {
        id: "one".to_string(),
        name: "stored".to_string(),
        content: "alpha".to_string(),
        token_count: None,
        added_at: None,
        updated_at: None,
    }];
    let user = vec![Instruction { name: "typed".to_string(), content: "beta".to_string() }];

    let both = build_instruction_sections(&meta, &user);
    assert_eq!(
        both,
        "<meta_instructions>\nstored\nalpha\n</meta_instructions>\n\n<user_instructions>\ntyped\nbeta\n</user_instructions>"
    );

    let empty_meta: Vec<SavedInstruction> = vec![];
    let only_user = build_instruction_sections(&empty_meta, &user);
    assert_eq!(only_user, "<user_instructions>\ntyped\nbeta\n</user_instructions>");

    let empty_user: Vec<Instruction> = vec![];
    assert_eq!(build_instruction_sections(&empty_meta, &empty_user), "");
}

#[test]
fn test_page_not_found_message() {
    assert_eq!(page_not_found(), "Saved page not found.");
}

#[test]
fn test_truncate_content_modes() {
    let short = "brief".to_string();
    assert_eq!(truncate_content(&short, &ContentLengthMode::Full), "brief");
    assert_eq!(truncate_content(&short, &ContentLengthMode::Truncated), "brief");

    let long: String = "x".repeat(300);
    let cut = truncate_content(&long, &ContentLengthMode::Truncated);
    assert_eq!(cut.len(), 256);
    assert_eq!(truncate_content(&long, &ContentLengthMode::Full).len(), 300);
}

#[test]
fn test_pretty_directory_path_shortens_home() {
    let home = "/home/user".to_string();
    assert_eq!(pretty_directory_path("/home/user/docs", Some(&home)), "~/docs");
    assert_eq!(pretty_directory_path("/home/user", Some(&home)), "~");
    assert_eq!(pretty_directory_path("/etc/hosts", Some(&home)), "/etc/hosts");
    assert_eq!(pretty_directory_path("/home/username", Some(&home)), "/home/username");
    assert_eq!(pretty_directory_path("/home/user/docs", None), "/home/user/docs");
}

#[test]
fn test_add_directory_to_nonexistent_list() {
    let dir = create_picked_directory("docs", "/home/user/docs");
    let list = update_recent_directories(vec![], dir);

    assert_eq!(list.len(), 1);
    assert_eq!(list[0].name, "docs");
    assert_eq!(list[0].path, "/home/user/docs");
}

#[test]
fn test_add_unique_directory_to_existing_list() {
    let initial = vec![
        create_picked_directory("B", "/path/B"),
        create_picked_directory("C", "/path/C"),
    ];

    let dir_a = create_picked_directory("A", "/path/A");
    let list = update_recent_directories(initial, dir_a);

    assert_eq!(list.len(), 3);
    assert_eq!(list[0].path, "/path/A");
    assert_eq!(list[1].path, "/path/B");
    assert_eq!(list[2].path, "/path/C");
}

#[test]
fn test_add_duplicate_directory_moves_to_front() {
    let initial = vec![
        create_picked_directory("A", "/path/A"),
        create_picked_directory("B", "/path/B"),
        create_picked_directory("C", "/path/C"),
    ];

    let dir_b = create_picked_directory("B", "/path/B");
    let list = update_recent_directories(initial, dir_b);

    assert_eq!(list.len(), 3);
    assert_eq!(list[0].path, "/path/B");
    assert_eq!(list[1].path, "/path/A");
    assert_eq!(list[2].path, "/path/C");
}

#[test]
fn test_add_directory_to_full_list_removes_oldest() {
    let initial = vec![
        create_picked_directory("E", "/path/E"),
        create_picked_directory("D", "/path/D"),
        create_picked_directory("C", "/path/C"),
        create_picked_directory("B", "/path/B"),
        create_picked_directory("A", "/path/A"),
    ];

    let dir_f = create_picked_directory("F", "/path/F");
    let list = update_recent_directories(initial, dir_f);

    assert_eq!(list.len(), 5);
    assert_eq!(list[0].path, "/path/F");
    assert_eq!(list[1].path, "/path/E");
    assert_eq!(list[2].path, "/path/D");
    assert_eq!(list[3].path, "/path/C");
    assert_eq!(list[4].path, "/path/B");
}

#[test]
fn test_readd_existing_directory_to_full_list() {
    let initial = vec![
        create_picked_directory("E", "/path/E"),
        create_picked_directory("D", "/path/D"),
        create_picked_directory("C", "/path/C"),
        create_picked_directory("B", "/path/B"),
        create_picked_directory("A", "/path/A"),
    ];

    let dir_c = create_picked_directory("C", "/path/C");
    let list = update_recent_directories(initial, dir_c);

    assert_eq!(list.len(), 5);
    assert_eq!(list[0].path, "/path/C");
    assert_eq!(list[1].path, "/path/E");
    assert_eq!(list[2].path, "/path/D");
    assert_eq!(list[3].path, "/path/B");
    assert_eq!(list[4].path, "/path/A");
}

#[test]
fn test_full_tree_projection_feeds_renderer() {
    let idx = build_index(sample_forest());
    let full = promptlab::projection::build_full_tree(&idx);
    assert_eq!(full.total_nodes, 4);

    let selected = PathSet::new();
    let rendered = render_full_tree(&full.nodes, &selected);
    assert_eq!(
        rendered,
        "└── root\n    ├── a.txt\n    └── dir1\n        └── b.txt"
    );
}

#[test]
fn test_extract_title_prefers_first_visible_line() {
    assert_eq!(extract_title("# Heading\nbody"), Some("Heading".to_string()));
    assert_eq!(extract_title("\n\n   \nplain line\nrest"), Some("plain line".to_string()));
    assert_eq!(extract_title("### deep heading  "), Some("deep heading".to_string()));
    assert_eq!(extract_title("##\n## real"), Some("real".to_string()));
    assert_eq!(extract_title("   \n\t\n"), None);
    assert_eq!(extract_title(""), None);
}
