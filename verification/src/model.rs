//! Data model of the tree engine: nodes, the flat index, and the
//! well-formedness predicates that every engine operation relies on.
//!
//! A `TreeIndex` stores the flattened tree in depth-first preorder: node
//! `i`'s subtree occupies the contiguous index range `[i, sub_end(i))`, a
//! child always has a larger index than its parent, and the children of a
//! node partition the rest of its range.  This layout gives every recursive
//! walk a termination measure and makes node counting arithmetic.

use vstd::prelude::*;

verus! {

/// Whether a node is a file or a directory; a closed two-variant tag so a
/// third kind would be a compile-time-visible gap.
#[derive(Clone, Copy, Debug, PartialEq, Eq, Structural)]
pub enum NodeKind {
    File,
    Directory,
}

/// One node of a nested tree: the shape in which the listing collaborator
/// delivers a directory, and in which projections are returned.
pub struct DirectoryNode {
    pub id: String,
    pub title: String,
    pub kind: NodeKind,
    pub children: Vec<DirectoryNode>,
}

/// One node of the flat index.  `parent` and `children` are positions in
/// `TreeIndex::nodes`, never raw paths.
pub struct NodeInfo {
    pub id: String,
    pub title: String,
    pub kind: NodeKind,
    pub parent: Option<usize>,
    pub children: Vec<usize>,
}

/// The flat, immutable index of one root directory: preorder node store,
/// the top-level positions, and a lowercase title per node for search.
pub struct TreeIndex {
    pub top_level: Vec<usize>,
    pub nodes: Vec<NodeInfo>,
    pub titles: Vec<(usize, String)>,
}

/// First position after node `i`'s subtree, read off the preorder layout:
/// the end of the last child's subtree, or `i + 1` for a leaf.  Outside the
/// well-formed range the value is clamped so the definition stays total.
pub open spec fn sub_end(nodes: Seq<NodeInfo>, i: int) -> int
    decreases nodes.len() - i,
{
    if 0 <= i < nodes.len() {
        let ch = nodes[i].children@;
        if ch.len() == 0 {
            i + 1
        } else {
            let c = ch[ch.len() - 1] as int;
            if i < c < nodes.len() {
                sub_end(nodes, c)
            } else {
                i + 1
            }
        }
    } else {
        i + 1
    }
}

/// Node `i` roots a completed, self-contained subtree: its children sit
/// immediately after it, each child's range follows its predecessor's, every
/// child points back to `i`, and files have no children.
pub open spec fn closed(nodes: Seq<NodeInfo>, i: int) -> bool
    decreases nodes.len() - i,
{
    &&& 0 <= i < nodes.len()
    &&& {
        let ch = nodes[i].children@;
        &&& (nodes[i].kind == NodeKind::File ==> ch.len() == 0)
        &&& (ch.len() > 0 ==> ch[0] == i + 1)
        &&& (forall|k: int|
            0 <= k < ch.len() - 1 ==> #[trigger] (ch[k + 1] as int) == sub_end(
                nodes,
                ch[k] as int,
            ))
        &&& (forall|k: int|
            0 <= k < ch.len() ==> i < #[trigger] (ch[k] as int) < nodes.len() && nodes[ch[k] as int].parent
                == Some(i as usize) && closed(nodes, ch[k] as int))
    }
}

/// The whole index is well formed: each top-level node roots a closed
/// subtree and has no parent, the top-level ranges tile `[0, len)` in order,
/// and the title table runs parallel to the node store.
pub open spec fn wf(idx: TreeIndex) -> bool {
    let nodes = idx.nodes@;
    let tops = idx.top_level@;
    &&& (forall|k: int|
        0 <= k < tops.len() ==> (#[trigger] tops[k] as int) < nodes.len() && nodes[tops[k] as int].parent
            is None && closed(nodes, tops[k] as int))
    &&& (tops.len() == 0 ==> nodes.len() == 0)
    &&& (tops.len() > 0 ==> tops[0] == 0 && sub_end(nodes, tops[tops.len() - 1] as int)
        == nodes.len())
    &&& (forall|k: int|
        0 <= k < tops.len() - 1 ==> (#[trigger] tops[k + 1] as int) == sub_end(
            nodes,
            tops[k] as int,
        ))
    &&& idx.titles@.len() == nodes.len()
    &&& (forall|i: int| 0 <= i < nodes.len() ==> (#[trigger] idx.titles@[i].0 as int) == i)
}

/// No two nodes of the index share an identifier.  Holds of any index built
/// from a real directory, where ids are absolute paths.
pub open spec fn distinct_ids(idx: TreeIndex) -> bool {
    forall|i: int, j: int|
        0 <= i < idx.nodes@.len() && 0 <= j < idx.nodes@.len() && i != j
            ==> #[trigger] idx.nodes@[i].id@ != #[trigger] idx.nodes@[j].id@
}

/// A search projection: the pruned (or full) forest plus how many of its
/// nodes were genuine substring hits.
pub struct SearchMatch {
    pub matched_ids_count: usize,
    pub results: Vec<DirectoryNode>,
}

/// A fully materialized forest together with the number of nodes in it.
pub struct NodeTree {
    pub nodes: Vec<DirectoryNode>,
    pub total_nodes: usize,
}

/// One selected file as reported to the UI, with its cached cost if any.
pub struct FileNode {
    pub path: String,
    pub title: String,
    pub token_count: Option<usize>,
    pub pretty_path: String,
}

/// Outcome of a selection operation: the new selection, the partially
/// covered directories, and the selected files with cached costs.
pub struct SelectionResult {
    pub selected_nodes_paths: Vec<String>,
    pub indeterminate_nodes_paths: Vec<String>,
    pub selected_files: Vec<FileNode>,
}

/// A directory chosen by the user, with a display name and shortened path.
pub struct PickedDirectory {
    pub name: String,
    pub path: String,
    pub pretty_path: String,
}

/// One raw directory entry as the listing collaborator reports it.
pub struct DirEntryInfo {
    pub name: String,
    pub path: String,
    pub is_directory: bool,
}

/// A fetched web page converted to markdown.
pub struct ScrapedPage {
    pub title: String,
    pub url: String,
    pub markdown: String,
}

/// A saved web page as stored, with its optional favicon.
pub struct SavedWebPage {
    pub title: String,
    pub url: String,
    pub markdown: String,
    pub favicon_url: Option<String>,
}

/// The listing form of a saved page: no body, only what the list shows.
pub struct SavedPageMetadata {
    pub url: String,
    pub title: String,
    pub token_count: Option<usize>,
    pub favicon_path: Option<String>,
}

/// Key names of the persistent store's configuration section.
pub struct StoreConfigKey;

/// Key names of the persistent store's UI-state section.
pub struct StoreStateKey;

/// The top-level categories of the persistent store.
pub struct StoreCategoryKey;

/// Key names of the per-root data section.
pub struct StoreDataKey;

impl StoreConfigKey {
    pub const EDITOR: &'static str = "path_to_editor";
}

impl StoreStateKey {
    pub const RECENTLY_OPENED_DIRECTORIES: &'static str = "recently_opened_directories";
}

impl StoreCategoryKey {
    pub const DATA: &'static str = "data";

    pub const CONFIG: &'static str = "config";

    pub const STATE: &'static str = "state";
}

impl StoreDataKey {
    pub const TOKEN_CACHE: &'static str = "token_cache";

    pub const GIT_TOKEN_CACHE: &'static str = "git_token_cache";

    pub const SAVED_WEB_PAGES: &'static str = "saved_web_pages";

    pub const SAVED_INSTRUCTIONS: &'static str = "saved_instructions";
}

} // verus!
