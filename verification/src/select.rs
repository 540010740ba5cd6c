//! The tri-state selection engine: recomputing a directory's state from
//! total descendant coverage, toggling a whole subtree atomically, walking
//! ancestors after a toggle, deriving the indeterminate set, and collecting
//! the selected files with their cached costs.

use vstd::prelude::*;

use crate::costcache::{spec_find, FileCostCache, FileSig};
use crate::model::{
    closed, distinct_ids, sub_end, wf, FileNode, NodeKind, SelectionResult, TreeIndex,
};
use crate::paths::{nodup, PathSet};
use crate::projection::{anc_ids, find_node, has_id, ids_in_range};
use crate::search::is_anc;
use crate::strutil::{pretty_directory_path, pretty_of, str_eq};
use crate::tree_facts::{
    lemma_closed_end, lemma_distinct_id_unique, lemma_interior_closed, lemma_interior_parent,
    lemma_wf_closed_at, lemma_wf_parent,
};

verus! {

/// Every file position in `[lo, hi)` carries a selected id.
pub open spec fn files_covered(
    nodes: Seq<crate::model::NodeInfo>,
    lo: int,
    hi: int,
    sel: Set<Seq<char>>,
) -> bool {
    forall|x: int|
        lo <= x < hi && nodes[x].kind == NodeKind::File ==> sel.contains(#[trigger] nodes[x].id@)
}

/// Some file position in `[lo, hi)` carries a selected id.
pub open spec fn any_file_selected(
    nodes: Seq<crate::model::NodeInfo>,
    lo: int,
    hi: int,
    sel: Set<Seq<char>>,
) -> bool {
    exists|x: int|
        lo <= x < hi && nodes[x].kind == NodeKind::File && sel.contains(#[trigger] nodes[x].id@)
}

/// The first position after the subtree at `i`, computed off the preorder
/// layout.
pub fn subtree_end(idx: &TreeIndex, i: usize) -> (r: usize)
    requires
        closed(idx.nodes@, i as int),
    ensures
        r as int == sub_end(idx.nodes@, i as int),
    decreases idx.nodes@.len() - i,
{
    proof {
        lemma_closed_end(idx.nodes@, i as int);
    }
    let total = idx.nodes.len();
    let n = idx.nodes[i].children.len();
    if n == 0 {
        i + 1
    } else {
        let c = idx.nodes[i].children[n - 1];
        proof {
            assert(closed(idx.nodes@, c as int));
        }
        subtree_end(idx, c)
    }
}

/// Whether every descendant file of the subtree at `i` is selected; a file
/// is covered exactly when its own id is in the set.
fn all_desc_from(idx: &TreeIndex, i: usize, selected: &PathSet) -> (r: bool)
    requires
        closed(idx.nodes@, i as int),
    ensures
        r == files_covered(idx.nodes@, i as int, sub_end(idx.nodes@, i as int), selected@),
    decreases idx.nodes@.len() - i,
{
    proof {
        lemma_closed_end(idx.nodes@, i as int);
    }
    let ghost nodes = idx.nodes@;
    let info = &idx.nodes[i];
    if matches!(info.kind, NodeKind::File) {
        let r = selected.contains(info.id.as_str());
        proof {
            assert(sub_end(nodes, i as int) == i + 1);
            if r {
                assert forall|x: int|
                    i as int <= x < i + 1 && nodes[x].kind == NodeKind::File implies selected@.contains(
                    #[trigger] nodes[x].id@,
                ) by {}
            }
        }
        return r;
    }
    let ghost ch = info.children@;
    let mut k: usize = 0;
    while k < info.children.len()
        invariant
            closed(nodes, i as int),
            nodes == idx.nodes@,
            ch == nodes[i as int].children@,
            info.children@ == ch,
            nodes[i as int].kind != NodeKind::File,
            k <= ch.len(),
            files_covered(
                nodes,
                i as int,
                if k < ch.len() {
                    ch[k as int] as int
                } else {
                    sub_end(nodes, i as int)
                },
                selected@,
            ),
        decreases ch.len() - k,
    {
        let c = info.children[k];
        proof {
            assert(closed(nodes, c as int));
            lemma_closed_end(nodes, c as int);
            crate::tree_facts::lemma_child_range(nodes, i as int, k as int);
            if k + 1 < ch.len() {
                assert((ch[k as int + 1] as int) == sub_end(nodes, c as int));
            } else {
                assert(sub_end(nodes, i as int) == sub_end(nodes, ch[ch.len() - 1] as int));
            }
        }
        if !all_desc_from(idx, c, selected) {
            proof {
                let x = choose|x: int|
                    c as int <= x < sub_end(nodes, c as int) && nodes[x].kind == NodeKind::File
                        && !selected@.contains(#[trigger] nodes[x].id@);
                assert(i as int <= x < sub_end(nodes, i as int));
            }
            return false;
        }
        k = k + 1;
    }
    true
}

/// Whether any descendant file of the subtree at `i` is selected.
fn any_desc_from(idx: &TreeIndex, i: usize, selected: &PathSet) -> (r: bool)
    requires
        closed(idx.nodes@, i as int),
    ensures
        r == any_file_selected(idx.nodes@, i as int, sub_end(idx.nodes@, i as int), selected@),
    decreases idx.nodes@.len() - i,
{
    proof {
        lemma_closed_end(idx.nodes@, i as int);
    }
    let ghost nodes = idx.nodes@;
    let info = &idx.nodes[i];
    if matches!(info.kind, NodeKind::File) {
        let r = selected.contains(info.id.as_str());
        proof {
            assert(sub_end(nodes, i as int) == i + 1);
            if r {
                let ii = i as int;
                assert(ii <= ii < i + 1 && nodes[ii].kind == NodeKind::File
                    && selected@.contains(nodes[ii].id@));
            } else {
                if any_file_selected(nodes, i as int, i + 1, selected@) {
                    let x = choose|x: int|
                        i as int <= x < i + 1 && nodes[x].kind == NodeKind::File
                            && selected@.contains(#[trigger] nodes[x].id@);
                    assert(x == i as int);
                }
            }
        }
        return r;
    }
    let ghost ch = info.children@;
    let mut k: usize = 0;
    while k < info.children.len()
        invariant
            closed(nodes, i as int),
            nodes == idx.nodes@,
            ch == nodes[i as int].children@,
            info.children@ == ch,
            nodes[i as int].kind != NodeKind::File,
            k <= ch.len(),
            !any_file_selected(
                nodes,
                i as int,
                if k < ch.len() {
                    ch[k as int] as int
                } else {
                    sub_end(nodes, i as int)
                },
                selected@,
            ),
        decreases ch.len() - k,
    {
        let c = info.children[k];
        proof {
            assert(closed(nodes, c as int));
            lemma_closed_end(nodes, c as int);
            crate::tree_facts::lemma_child_range(nodes, i as int, k as int);
            if k + 1 < ch.len() {
                assert((ch[k as int + 1] as int) == sub_end(nodes, c as int));
            } else {
                assert(sub_end(nodes, i as int) == sub_end(nodes, ch[ch.len() - 1] as int));
            }
        }
        if any_desc_from(idx, c, selected) {
            proof {
                let x = choose|x: int|
                    c as int <= x < sub_end(nodes, c as int) && nodes[x].kind == NodeKind::File
                        && selected@.contains(#[trigger] nodes[x].id@);
                assert(i as int <= x < sub_end(nodes, i as int));
            }
            return true;
        }
        proof {
            let ghost nxt: int = if k + 1 < ch.len() {
                ch[k as int + 1] as int
            } else {
                sub_end(nodes, i as int)
            };
            if any_file_selected(nodes, i as int, nxt, selected@) {
                let x = choose|x: int|
                    i as int <= x < nxt && nodes[x].kind == NodeKind::File && selected@.contains(
                        #[trigger] nodes[x].id@,
                    );
                if x < ch[k as int] as int {
                    assert(any_file_selected(nodes, i as int, ch[k as int] as int, selected@));
                } else {
                    assert(any_file_selected(
                        nodes,
                        c as int,
                        sub_end(nodes, c as int),
                        selected@,
                    ));
                }
            }
        }
        k = k + 1;
    }
    false
}

/// Whether every descendant file of the node with this id is selected; an
/// unknown id counts as not selected.
pub fn all_descendants_selected(id: &str, tree_index: &TreeIndex, selected: &PathSet) -> (r: bool)
    requires
        wf(*tree_index),
    ensures
        !has_id(*tree_index, id@) ==> r == false,
        r ==> exists|i: int|
            0 <= i < tree_index.nodes@.len() && (#[trigger] tree_index.nodes@[i].id@) == id@
                && files_covered(
                tree_index.nodes@,
                i,
                sub_end(tree_index.nodes@, i),
                selected@,
            ),
        distinct_ids(*tree_index) ==> forall|i: int|
            0 <= i < tree_index.nodes@.len() && (#[trigger] tree_index.nodes@[i].id@) == id@
                ==> r == files_covered(
                tree_index.nodes@,
                i,
                sub_end(tree_index.nodes@, i),
                selected@,
            ),
{
    match find_node(tree_index, id) {
        Some(i) => {
            proof {
                lemma_wf_closed_at(*tree_index, i as int);
            }
            let r = all_desc_from(tree_index, i, selected);
            proof {
                if distinct_ids(*tree_index) {
                    assert forall|j: int|
                        0 <= j < tree_index.nodes@.len() && (#[trigger] tree_index.nodes@[j].id@)
                            == id@ implies j == i as int by {
                        lemma_distinct_id_unique(*tree_index, j, i as int);
                    }
                }
            }
            r
        },
        None => false,
    }
}

/// Whether any descendant file of the node with this id is selected; an
/// unknown id counts as not selected.
pub fn any_descendant_selected(id: &str, tree_index: &TreeIndex, selected: &PathSet) -> (r: bool)
    requires
        wf(*tree_index),
    ensures
        !has_id(*tree_index, id@) ==> r == false,
        distinct_ids(*tree_index) ==> forall|i: int|
            0 <= i < tree_index.nodes@.len() && (#[trigger] tree_index.nodes@[i].id@) == id@
                ==> r == any_file_selected(
                tree_index.nodes@,
                i,
                sub_end(tree_index.nodes@, i),
                selected@,
            ),
{
    match find_node(tree_index, id) {
        Some(i) => {
            proof {
                lemma_wf_closed_at(*tree_index, i as int);
            }
            let r = any_desc_from(tree_index, i, selected);
            proof {
                if distinct_ids(*tree_index) {
                    assert forall|j: int|
                        0 <= j < tree_index.nodes@.len() && (#[trigger] tree_index.nodes@[j].id@)
                            == id@ implies j == i as int by {
                        lemma_distinct_id_unique(*tree_index, j, i as int);
                    }
                }
            }
            r
        },
        None => false,
    }
}

/// No file position carries an id that appears on the ancestor chain of
/// `i0`: ancestors are directories, and ids are distinct.
proof fn lemma_anc_ids_are_dirs(idx: TreeIndex, i0: int, x: int)
    requires
        wf(idx),
        distinct_ids(idx),
        0 <= i0 < idx.nodes@.len(),
        0 <= x < idx.nodes@.len(),
        idx.nodes@[x].kind == NodeKind::File,
    ensures
        !anc_ids(idx.nodes@, i0).contains(idx.nodes@[x].id@),
{
    let nodes = idx.nodes@;
    crate::search::lemma_anc_char(idx, i0);
    if anc_ids(nodes, i0).contains(nodes[x].id@) {
        let a = choose|a: int| is_anc(nodes, a, i0) && (#[trigger] nodes[a].id@) == nodes[x].id@;
        lemma_distinct_id_unique(idx, a, x);
        lemma_wf_closed_at(idx, a);
        lemma_closed_end(nodes, a);
        assert(nodes[a].kind == NodeKind::Directory) by {
            lemma_wf_closed_at(idx, i0);
            lemma_interior_parent(nodes, a, i0);
        }
        assert(false);
    }
}

/// Two selections that agree outside the ancestor-chain ids of `i0` cover
/// the same files everywhere.
proof fn lemma_covered_frame(
    idx: TreeIndex,
    i0: int,
    s1: Set<Seq<char>>,
    s2: Set<Seq<char>>,
    lo: int,
    hi: int,
)
    requires
        wf(idx),
        distinct_ids(idx),
        0 <= i0 < idx.nodes@.len(),
        0 <= lo,
        hi <= idx.nodes@.len(),
        forall|p: Seq<char>|
            !anc_ids(idx.nodes@, i0).contains(p) ==> s1.contains(p) == s2.contains(p),
    ensures
        files_covered(idx.nodes@, lo, hi, s1) == files_covered(idx.nodes@, lo, hi, s2),
{
    let nodes = idx.nodes@;
    assert forall|x: int| lo <= x < hi && nodes[x].kind == NodeKind::File implies s1.contains(
        #[trigger] nodes[x].id@,
    ) == s2.contains(nodes[x].id@) by {
        lemma_anc_ids_are_dirs(idx, i0, x);
    }
}

/// Walks upward from the node with this id, recomputing each ancestor's
/// membership from scratch: an ancestor is selected afterwards exactly when
/// all of its descendant files were selected on entry.  Ids outside the
/// ancestor chain keep their membership.
pub fn update_ancestors_selection(id: &str, tree_index: &TreeIndex, selected: &mut PathSet)
    requires
        wf(*tree_index),
        nodup(*old(selected)),
    ensures
        nodup(*final(selected)),
        !has_id(*tree_index, id@) ==> final(selected)@ == old(selected)@,
        distinct_ids(*tree_index) && has_id(*tree_index, id@) ==> exists|i: int|
            0 <= i < tree_index.nodes@.len() && (#[trigger] tree_index.nodes@[i].id@) == id@ && (
            forall|a: int|
                is_anc(tree_index.nodes@, a, i) ==> (final(selected)@.contains(
                    #[trigger] tree_index.nodes@[a].id@,
                ) <==> files_covered(
                    tree_index.nodes@,
                    a,
                    sub_end(tree_index.nodes@, a),
                    old(selected)@,
                ))) && (forall|p: Seq<char>|
                !anc_ids(tree_index.nodes@, i).contains(p) ==> final(selected)@.contains(p) == old(
                    selected,
                )@.contains(p)),
{
    let ghost nodes = tree_index.nodes@;
    let i0 = match find_node(tree_index, id) {
        Some(i) => i,
        None => {
            return ;
        },
    };
    let mut cur: usize = i0;
    proof {
        lemma_wf_closed_at(*tree_index, i0 as int);
    }
    loop
        invariant
            wf(*tree_index),
            nodes == tree_index.nodes@,
            nodup(*selected),
            (cur as int) < nodes.len(),
            (i0 as int) < nodes.len(),
            cur == i0 || is_anc(nodes, cur as int, i0 as int),
            distinct_ids(*tree_index) ==> forall|p: Seq<char>|
                !anc_ids(nodes, i0 as int).contains(p) ==> selected@.contains(p) == old(
                    selected,
                )@.contains(p),
            distinct_ids(*tree_index) ==> forall|a: int|
                is_anc(nodes, a, i0 as int) && a >= cur as int ==> (selected@.contains(
                    #[trigger] nodes[a].id@,
                ) <==> files_covered(nodes, a, sub_end(nodes, a), old(selected)@)),
            distinct_ids(*tree_index) ==> forall|a: int|
                is_anc(nodes, a, cur as int) ==> is_anc(nodes, a, i0 as int),
        ensures
            nodup(*selected),
            distinct_ids(*tree_index) ==> forall|a: int|
                is_anc(nodes, a, i0 as int) ==> (selected@.contains(#[trigger] nodes[a].id@)
                    <==> files_covered(nodes, a, sub_end(nodes, a), old(selected)@)),
            distinct_ids(*tree_index) ==> forall|p: Seq<char>|
                !anc_ids(nodes, i0 as int).contains(p) ==> selected@.contains(p) == old(
                    selected,
                )@.contains(p),
        decreases cur,
    {
        let parent_slot = tree_index.nodes[cur].parent;
        match parent_slot {
            Some(p) => {
                proof {
                    lemma_wf_parent(*tree_index, cur as int);
                    lemma_wf_closed_at(*tree_index, p as int);
                    lemma_closed_end(nodes, p as int);
                    lemma_wf_closed_at(*tree_index, cur as int);
                    lemma_closed_end(nodes, cur as int);
                    assert(is_anc(nodes, p as int, cur as int)) by {
                        let ch = nodes[p as int].children@;
                        let k = choose|k: int|
                            0 <= k < ch.len() && (#[trigger] ch[k] as int) == cur as int;
                        crate::tree_facts::lemma_child_range(nodes, p as int, k);
                    }
                    assert(is_anc(nodes, p as int, i0 as int)) by {
                        if cur != i0 {
                            lemma_interior_closed(nodes, p as int, cur as int);
                        }
                    }
                    if distinct_ids(*tree_index) {
                        crate::search::lemma_anc_char(*tree_index, i0 as int);
                        assert(anc_ids(nodes, i0 as int).contains(nodes[p as int].id@));
                    }
                }
                let covered_now = all_desc_from(tree_index, p, selected);
                let ghost pre = selected@;
                let pid: String = tree_index.nodes[p].id.clone();
                if covered_now {
                    selected.insert(pid);
                } else {
                    selected.remove(pid.as_str());
                }
                proof {
                    if distinct_ids(*tree_index) {
                        lemma_covered_frame(
                            *tree_index,
                            i0 as int,
                            pre,
                            old(selected)@,
                            p as int,
                            sub_end(nodes, p as int),
                        );
                        assert(covered_now == files_covered(
                            nodes,
                            p as int,
                            sub_end(nodes, p as int),
                            old(selected)@,
                        ));
                        assert forall|a: int|
                            is_anc(nodes, a, i0 as int) && a >= p as int implies (selected@.contains(
                            #[trigger] nodes[a].id@,
                        ) <==> files_covered(nodes, a, sub_end(nodes, a), old(selected)@)) by {
                            if a != p as int {
                                assert(a > p as int);
                                assert(a >= cur as int) by {
                                    if a < cur as int {
                                        assert(is_anc(nodes, a, cur as int));
                                        lemma_wf_closed_at(*tree_index, a);
                                        lemma_interior_parent(nodes, a, cur as int);
                                        assert(false);
                                    }
                                }
                                assert(nodes[a].id@ != nodes[p as int].id@);
                            }
                        }
                        assert forall|a: int|
                            is_anc(nodes, a, p as int) implies is_anc(nodes, a, i0 as int) by {
                            lemma_wf_closed_at(*tree_index, a);
                            lemma_interior_closed(nodes, a, p as int);
                        }
                    }
                }
                cur = p;
            },
            None => {
                proof {
                    if distinct_ids(*tree_index) {
                        assert forall|a: int|
                            is_anc(nodes, a, i0 as int) implies a >= cur as int by {
                            if a < cur as int {
                                assert(is_anc(nodes, a, cur as int));
                                lemma_wf_closed_at(*tree_index, a);
                                lemma_interior_parent(nodes, a, cur as int);
                            }
                        }
                    }
                }
                break ;
            },
        }
    }
    proof {
        let ghost ii = i0 as int;
        assert(0 <= ii < nodes.len() && nodes[ii].id@ == id@);
    }
}

/// The indeterminate set: ids of directories with some but not all of
/// their descendant files selected.
pub open spec fn indet_set(idx: TreeIndex, sel: Set<Seq<char>>) -> Set<Seq<char>> {
    Set::new(
        |p: Seq<char>|
            exists|i: int|
                0 <= i < idx.nodes@.len() && idx.nodes@[i].kind == NodeKind::Directory
                    && any_file_selected(idx.nodes@, i, sub_end(idx.nodes@, i), sel)
                    && !files_covered(idx.nodes@, i, sub_end(idx.nodes@, i), sel) && (
                #[trigger] idx.nodes@[i].id@) == p,
    )
}

/// Collects every directory that is partially but not fully covered: the
/// tri-state checkboxes rendered as indeterminate.
pub fn compute_indeterminate(tree_index: &TreeIndex, selected: &PathSet) -> (r: PathSet)
    requires
        wf(*tree_index),
    ensures
        nodup(r),
        r@ == indet_set(*tree_index, selected@),
{
    let ghost nodes = tree_index.nodes@;
    let mut out = PathSet::new();
    let mut k: usize = 0;
    while k < tree_index.nodes.len()
        invariant
            wf(*tree_index),
            nodes == tree_index.nodes@,
            nodup(out),
            k <= nodes.len(),
            out@ == Set::new(
                |p: Seq<char>|
                    exists|i: int|
                        0 <= i < k && nodes[i].kind == NodeKind::Directory && any_file_selected(
                            nodes,
                            i,
                            sub_end(nodes, i),
                            selected@,
                        ) && !files_covered(nodes, i, sub_end(nodes, i), selected@) && (
                        #[trigger] nodes[i].id@) == p,
            ),
        decreases nodes.len() - k,
    {
        let ghost pre = out@;
        proof {
            lemma_wf_closed_at(*tree_index, k as int);
        }
        let is_dir = matches!(tree_index.nodes[k].kind, NodeKind::Directory);
        let mut added = false;
        if is_dir {
            let any = any_desc_from(tree_index, k, selected);
            if any {
                let all = all_desc_from(tree_index, k, selected);
                if !all {
                    out.insert(tree_index.nodes[k].id.clone());
                    added = true;
                }
            }
        }
        proof {
            let post = Set::new(
                |p: Seq<char>|
                    exists|i: int|
                        0 <= i < k + 1 && nodes[i].kind == NodeKind::Directory
                            && any_file_selected(nodes, i, sub_end(nodes, i), selected@)
                            && !files_covered(nodes, i, sub_end(nodes, i), selected@) && (
                        #[trigger] nodes[i].id@) == p,
            );
            assert forall|p: Seq<char>| post.contains(p) implies out@.contains(p) by {
                let i = choose|i: int|
                    0 <= i < k + 1 && nodes[i].kind == NodeKind::Directory && any_file_selected(
                        nodes,
                        i,
                        sub_end(nodes, i),
                        selected@,
                    ) && !files_covered(nodes, i, sub_end(nodes, i), selected@) && (
                    #[trigger] nodes[i].id@) == p;
                if i < k {
                    assert(pre.contains(p));
                } else {
                    assert(added);
                }
            }
            assert forall|p: Seq<char>| out@.contains(p) implies post.contains(p) by {
                if pre.contains(p) {
                    let i = choose|i: int|
                        0 <= i < k && nodes[i].kind == NodeKind::Directory && any_file_selected(
                            nodes,
                            i,
                            sub_end(nodes, i),
                            selected@,
                        ) && !files_covered(nodes, i, sub_end(nodes, i), selected@) && (
                        #[trigger] nodes[i].id@) == p;
                    assert(0 <= i < k + 1 && nodes[i].id@ == p);
                } else {
                    let ghost ki = k as int;
                    assert(0 <= ki < k + 1 && nodes[ki].id@ == p);
                }
            }
            assert(out@ =~= post);
        }
        k = k + 1;
    }
    proof {
        assert(out@ =~= indet_set(*tree_index, selected@));
    }
    out
}

/// The first signature recorded for this path, if any.
pub open spec fn sig_find(sigs: Seq<(String, FileSig)>, p: Seq<char>) -> Option<FileSig>
    decreases sigs.len(),
{
    if sigs.len() == 0 {
        Option::None
    } else if sigs[0].0@ == p {
        Option::Some(sigs[0].1)
    } else {
        sig_find(sigs.subrange(1, sigs.len() as int), p)
    }
}

/// The cost the cache would answer for this path under the given live
/// signatures: present only on a validated hit.
pub open spec fn cached_cost_spec(
    entries: Seq<(String, crate::costcache::CacheEntry)>,
    sigs: Seq<(String, FileSig)>,
    p: Seq<char>,
) -> Option<usize> {
    match (sig_find(sigs, p), spec_find(entries, p)) {
        (Option::Some(sig), Option::Some(e)) => if e.mtime_ms == sig.mtime_ms && e.size
            == sig.size {
            Option::Some(e.count)
        } else {
            Option::None
        },
        _ => Option::None,
    }
}

/// Looks up the live signature gathered for this path, if any.
fn sig_lookup(sigs: &Vec<(String, FileSig)>, path: &str) -> (r: Option<FileSig>)
    ensures
        r == sig_find(sigs@, path@),
{
    let mut k: usize = 0;
    proof {
        assert(sigs@.subrange(0, sigs@.len() as int) =~= sigs@);
    }
    while k < sigs.len()
        invariant
            k <= sigs@.len(),
            sig_find(sigs@, path@) == sig_find(
                sigs@.subrange(k as int, sigs@.len() as int),
                path@,
            ),
        decreases sigs@.len() - k,
    {
        proof {
            let tail = sigs@.subrange(k as int, sigs@.len() as int);
            assert(tail[0] == sigs@[k as int]);
            assert(tail.subrange(1, tail.len() as int) =~= sigs@.subrange(
                k + 1,
                sigs@.len() as int,
            ));
        }
        if str_eq(sigs[k].0.as_str(), path) {
            return Some(sigs[k].1);
        }
        k = k + 1;
    }
    proof {
        assert(sigs@.subrange(sigs@.len() as int, sigs@.len() as int) =~= Seq::<(
            String,
            FileSig,
        )>::empty());
    }
    None
}

/// This id names a file node of the index.
pub open spec fn id_is_file(idx: TreeIndex, p: Seq<char>) -> bool {
    exists|i: int|
        0 <= i < idx.nodes@.len() && (#[trigger] idx.nodes@[i].id@) == p && idx.nodes@[i].kind
            == NodeKind::File
}

/// The ids among the first `k` stored selection entries that name files,
/// in storage order.
pub open spec fn file_ids_upto(idx: TreeIndex, items: Seq<String>, k: int) -> Seq<Seq<char>>
    decreases k,
{
    if k <= 0 {
        Seq::empty()
    } else {
        file_ids_upto(idx, items, k - 1) + (if id_is_file(idx, items[k - 1]@) {
            seq![items[k - 1]@]
        } else {
            Seq::empty()
        })
    }
}

/// The listed file ids are sound, complete and duplicate-free for a
/// duplicate-free selection: each listed id is a stored file id, every
/// stored file id is listed, and nothing is listed twice.
proof fn lemma_file_ids_upto_set(idx: TreeIndex, items: Seq<String>, k: int)
    requires
        0 <= k <= items.len(),
        items.map_values(|s: String| s@).no_duplicates(),
    ensures
        file_ids_upto(idx, items, k).no_duplicates(),
        forall|t: int|
            0 <= t < file_ids_upto(idx, items, k).len() ==> id_is_file(
                idx,
                #[trigger] file_ids_upto(idx, items, k)[t],
            ) && (exists|j: int| 0 <= j < k && (#[trigger] items[j]@) == file_ids_upto(
                idx,
                items,
                k,
            )[t]),
        forall|j: int|
            0 <= j < k && id_is_file(idx, #[trigger] items[j]@) ==> file_ids_upto(
                idx,
                items,
                k,
            ).contains(items[j]@),
    decreases k,
{
    if k > 0 {
        lemma_file_ids_upto_set(idx, items, k - 1);
        let pre = file_ids_upto(idx, items, k - 1);
        let whole = file_ids_upto(idx, items, k);
        if id_is_file(idx, items[k - 1]@) {
            assert(whole =~= pre.push(items[k - 1]@));
            assert forall|a: int, b: int| 0 <= a < b < whole.len() implies whole[a]
                != whole[b] by {
                if b == whole.len() - 1 {
                    let j = choose|j: int| 0 <= j < k - 1 && (#[trigger] items[j]@) == pre[a];
                    assert(items.map_values(|s: String| s@)[j] == items[j]@);
                    assert(items.map_values(|s: String| s@)[k - 1] == items[k - 1]@);
                }
            }
            assert forall|j: int|
                0 <= j < k && id_is_file(idx, #[trigger] items[j]@) implies whole.contains(
                items[j]@,
            ) by {
                if j == k - 1 {
                    assert(whole[whole.len() - 1] == items[k - 1]@);
                } else {
                    assert(pre.contains(items[j]@));
                    let t = choose|t: int| 0 <= t < pre.len() && pre[t] == items[j]@;
                    assert(whole[t] == items[j]@);
                }
            }
        } else {
            assert(whole =~= pre);
        }
    }
}

/// The collected file summaries list exactly the selected ids that name
/// files, without duplicates, whenever the selection itself is
/// duplicate-free.
proof fn lemma_selected_files_shape(
    idx: TreeIndex,
    items: Seq<String>,
    files: Seq<FileNode>,
    setview: Set<Seq<char>>,
)
    requires
        items.map_values(|s: String| s@).no_duplicates(),
        setview == items.map_values(|s: String| s@).to_set(),
        files.map_values(|f: FileNode| f.path@) == file_ids_upto(idx, items, items.len() as int),
    ensures
        files.map_values(|f: FileNode| f.path@).no_duplicates(),
        files.map_values(|f: FileNode| f.path@).to_set() == Set::new(
            |p: Seq<char>| setview.contains(p) && id_is_file(idx, p),
        ),
{
    lemma_file_ids_upto_set(idx, items, items.len() as int);
    let fmap = files.map_values(|f: FileNode| f.path@);
    let target = Set::new(|p: Seq<char>| setview.contains(p) && id_is_file(idx, p));
    let views = items.map_values(|s: String| s@);
    assert forall|p: Seq<char>| fmap.to_set().contains(p) implies target.contains(p) by {
        let t = choose|t: int| 0 <= t < fmap.len() && fmap[t] == p;
        assert(id_is_file(idx, fmap[t]));
        let j = choose|j: int| 0 <= j < items.len() && (#[trigger] items[j]@) == fmap[t];
        assert(views[j] == items[j]@);
        assert(setview.contains(p));
    }
    assert forall|p: Seq<char>| target.contains(p) implies fmap.to_set().contains(p) by {
        let j = choose|j: int| 0 <= j < views.len() && views[j] == p;
        assert(items[j]@ == p);
        assert(file_ids_upto(idx, items, items.len() as int).contains(items[j]@));
    }
    assert(fmap.to_set() =~= target);
}

/// Collects, in storage order, one summary per selected file: its title,
/// its cached cost when the live signature validates it, and its
/// home-shortened display path.  Ids that name no file are skipped.
pub fn collect_selected_files(
    tree_index: &TreeIndex,
    selected: &PathSet,
    cache: &FileCostCache,
    sigs: &Vec<(String, FileSig)>,
    home: Option<&String>,
) -> (r: Vec<FileNode>)
    requires
        wf(*tree_index),
    ensures
        r@.len() <= selected.items@.len(),
        distinct_ids(*tree_index) ==> r@.map_values(|f: FileNode| f.path@) == file_ids_upto(
            *tree_index,
            selected.items@,
            selected.items@.len() as int,
        ),
        forall|t: int|
            0 <= t < r@.len() ==> (#[trigger] r@[t].token_count) == cached_cost_spec(
                cache.entries@,
                sigs@,
                r@[t].path@,
            ) && r@[t].pretty_path@ == pretty_of(
                r@[t].path@,
                match home {
                    Option::Some(h) => Option::Some(h@),
                    Option::None => Option::None,
                },
            ) && exists|i: int|
                0 <= i < tree_index.nodes@.len() && (#[trigger] tree_index.nodes@[i].id@)
                    == r@[t].path@ && tree_index.nodes@[i].kind == NodeKind::File
                    && r@[t].title@ == tree_index.nodes@[i].title@,
{
    let ghost nodes = tree_index.nodes@;
    let ghost hview = match home {
        Option::Some(h) => Option::Some(h@),
        Option::None => Option::<Seq<char>>::None,
    };
    let mut r: Vec<FileNode> = Vec::new();
    let mut t: usize = 0;
    while t < selected.items.len()
        invariant
            wf(*tree_index),
            nodes == tree_index.nodes@,
            t <= selected.items@.len(),
            r@.len() <= t,
            hview == match home {
                Option::Some(h) => Option::Some(h@),
                Option::None => Option::<Seq<char>>::None,
            },
            distinct_ids(*tree_index) ==> r@.map_values(|f: FileNode| f.path@) == file_ids_upto(
                *tree_index,
                selected.items@,
                t as int,
            ),
            forall|u: int|
                0 <= u < r@.len() ==> (#[trigger] r@[u].token_count) == cached_cost_spec(
                    cache.entries@,
                    sigs@,
                    r@[u].path@,
                ) && r@[u].pretty_path@ == pretty_of(r@[u].path@, hview) && exists|i: int|
                    0 <= i < nodes.len() && (#[trigger] nodes[i].id@) == r@[u].path@ && nodes[i].kind
                        == NodeKind::File && r@[u].title@ == nodes[i].title@,
        decreases selected.items@.len() - t,
    {
        let ghost pre = r@;
        let path_ref = &selected.items[t];
        match find_node(tree_index, path_ref.as_str()) {
            Some(i) => {
                if matches!(tree_index.nodes[i].kind, NodeKind::File) {
                    let live = sig_lookup(sigs, path_ref.as_str());
                    let count = cache.get_cached_count(path_ref.as_str(), live);
                    let node = FileNode {
                        path: path_ref.clone(),
                        title: tree_index.nodes[i].title.clone(),
                        token_count: count,
                        pretty_path: pretty_directory_path(path_ref.as_str(), home),
                    };
                    r.push(node);
                    proof {
                        let ghost ii = i as int;
                        assert(0 <= ii < nodes.len() && nodes[ii].id@
                            == selected.items@[t as int]@ && nodes[ii].kind == NodeKind::File);
                        assert(id_is_file(*tree_index, selected.items@[t as int]@));
                        if distinct_ids(*tree_index) {
                            assert(r@.map_values(|f: FileNode| f.path@) =~= pre.map_values(
                                |f: FileNode| f.path@,
                            ).push(selected.items@[t as int]@));
                            assert(r@.map_values(|f: FileNode| f.path@) =~= file_ids_upto(
                                *tree_index,
                                selected.items@,
                                t + 1,
                            ));
                        }
                    }
                } else {
                    proof {
                        if distinct_ids(*tree_index) {
                            assert(!id_is_file(*tree_index, selected.items@[t as int]@)) by {
                                if id_is_file(*tree_index, selected.items@[t as int]@) {
                                    let j = choose|j: int|
                                        0 <= j < nodes.len() && (#[trigger] nodes[j].id@)
                                            == selected.items@[t as int]@ && nodes[j].kind
                                            == NodeKind::File;
                                    lemma_distinct_id_unique(*tree_index, j, i as int);
                                }
                            }
                            assert(r@.map_values(|f: FileNode| f.path@) =~= file_ids_upto(
                                *tree_index,
                                selected.items@,
                                t + 1,
                            ));
                        }
                    }
                }
            },
            None => {
                proof {
                    if distinct_ids(*tree_index) {
                        assert(!id_is_file(*tree_index, selected.items@[t as int]@));
                        assert(r@.map_values(|f: FileNode| f.path@) =~= file_ids_upto(
                            *tree_index,
                            selected.items@,
                            t + 1,
                        ));
                    }
                }
            },
        }
        t = t + 1;
    }
    r
}

/// Appending one position to a range appends its id to the range's id set.
proof fn lemma_range_snoc(nodes: Seq<crate::model::NodeInfo>, lo: int, x: int)
    requires
        lo <= x,
    ensures
        ids_in_range(nodes, lo, x + 1) == ids_in_range(nodes, lo, x).insert(nodes[x].id@),
{
    let a = ids_in_range(nodes, lo, x).insert(nodes[x].id@);
    assert forall|p: Seq<char>| ids_in_range(nodes, lo, x + 1).contains(p) implies a.contains(
        p,
    ) by {
        let j = choose|j: int| lo <= j < x + 1 && (#[trigger] nodes[j].id@) == p;
        if j < x {
            assert(ids_in_range(nodes, lo, x).contains(p));
        }
    }
    assert forall|p: Seq<char>| a.contains(p) implies ids_in_range(nodes, lo, x + 1).contains(
        p,
    ) by {
        if p == nodes[x].id@ {
            assert(lo <= x < x + 1 && nodes[x].id@ == p);
        } else {
            let j = choose|j: int| lo <= j < x && (#[trigger] nodes[j].id@) == p;
            assert(lo <= j < x + 1 && nodes[j].id@ == p);
        }
    }
    assert(ids_in_range(nodes, lo, x + 1) =~= a);
}

/// How a toggle of the subtree at `i` transforms the selection `cur0`
/// into `selview`: the whole target range flips to the chosen direction,
/// each ancestor holds exactly when the applied selection covers all its
/// descendant files, and every other id keeps its membership.
pub open spec fn toggled_selection(
    idx: TreeIndex,
    i: int,
    cur0: Set<Seq<char>>,
    selview: Set<Seq<char>>,
) -> bool {
    let nodes = idx.nodes@;
    let tgt = ids_in_range(nodes, i, sub_end(nodes, i));
    let selecting = !tgt.subset_of(cur0);
    let applied = if selecting {
        cur0 + tgt
    } else {
        cur0.difference(tgt)
    };
    &&& (forall|x: int|
        i <= x < sub_end(nodes, i) ==> (selview.contains(#[trigger] nodes[x].id@)
            <==> selecting))
    &&& (forall|a: int|
        is_anc(nodes, a, i) ==> (selview.contains(#[trigger] nodes[a].id@) <==> files_covered(
            nodes,
            a,
            sub_end(nodes, a),
            applied,
        )))
    &&& (forall|p: Seq<char>|
        !tgt.contains(p) && !anc_ids(nodes, i).contains(p) ==> selview.contains(p)
            == cur0.contains(p))
}

/// No position of the subtree at `i` carries an id on `i`'s ancestor
/// chain: ancestors sit strictly before the subtree, and ids are distinct.
proof fn lemma_subtree_ids_not_anc(idx: TreeIndex, i: int, x: int)
    requires
        wf(idx),
        distinct_ids(idx),
        0 <= i <= x,
        x < sub_end(idx.nodes@, i),
        i < idx.nodes@.len(),
        x < idx.nodes@.len(),
    ensures
        !anc_ids(idx.nodes@, i).contains(idx.nodes@[x].id@),
{
    let nodes = idx.nodes@;
    crate::search::lemma_anc_char(idx, i);
    if anc_ids(nodes, i).contains(nodes[x].id@) {
        let a = choose|a: int| is_anc(nodes, a, i) && (#[trigger] nodes[a].id@) == nodes[x].id@;
        lemma_distinct_id_unique(idx, a, x);
        assert(false);
    }
}

/// Toggles the node with this id over the caller-supplied selection.  A
/// directory toggles its whole subtree atomically: if any target is
/// unselected the operation selects them all, otherwise it deselects them
/// all.  Ancestors are then recomputed from total descendant coverage, the
/// indeterminate set is derived, and the selected files are collected with
/// their cached costs.  An unknown id leaves the selection unchanged.
pub fn toggle_selection(
    tree_index: &TreeIndex,
    current: Vec<String>,
    node_path: &str,
    cache: &FileCostCache,
    sigs: &Vec<(String, FileSig)>,
    home: Option<&String>,
) -> (r: SelectionResult)
    requires
        wf(*tree_index),
    ensures
        ({
            let nodes = tree_index.nodes@;
            let cur0 = current@.map_values(|s: String| s@).to_set();
            let selview = r.selected_nodes_paths@.map_values(|s: String| s@).to_set();
            &&& (!has_id(*tree_index, node_path@) ==> selview == cur0)
            &&& (r.indeterminate_nodes_paths@.map_values(|s: String| s@).to_set() == indet_set(
                *tree_index,
                selview,
            ))
            &&& (distinct_ids(*tree_index) && has_id(*tree_index, node_path@) ==> exists|i: int|
                0 <= i < nodes.len() && (#[trigger] nodes[i].id@) == node_path@
                    && toggled_selection(*tree_index, i, cur0, selview))
            &&& (distinct_ids(*tree_index) ==> r.selected_files@.map_values(
                |f: FileNode| f.path@,
            ).no_duplicates() && r.selected_files@.map_values(|f: FileNode| f.path@).to_set()
                == Set::new(
                |p: Seq<char>| selview.contains(p) && id_is_file(*tree_index, p),
            ))
            &&& (forall|t: int|
                0 <= t < r.selected_files@.len() ==> (#[trigger] r.selected_files@[t].token_count)
                    == cached_cost_spec(cache.entries@, sigs@, r.selected_files@[t].path@)
                    && r.selected_files@[t].pretty_path@ == pretty_of(
                    r.selected_files@[t].path@,
                    match home {
                        Option::Some(h) => Option::Some(h@),
                        Option::None => Option::None,
                    },
                ) && exists|i: int|
                    0 <= i < nodes.len() && (#[trigger] nodes[i].id@)
                        == r.selected_files@[t].path@ && nodes[i].kind == NodeKind::File
                        && r.selected_files@[t].title@ == nodes[i].title@)
        }),
{
    let ghost nodes = tree_index.nodes@;
    let ghost cur0 = current@.map_values(|s: String| s@).to_set();
    let mut set = PathSet::from_vec(current);
    let i = match find_node(tree_index, node_path) {
        Some(i) => i,
        None => {
            let indeterminates = compute_indeterminate(tree_index, &set);
            let selected_files = collect_selected_files(tree_index, &set, cache, sigs, home);
            let ghost setview = set@;
            let ghost items = set.items@;
            let out = SelectionResult {
                selected_nodes_paths: set.to_vec(),
                indeterminate_nodes_paths: indeterminates.to_vec(),
                selected_files,
            };
            proof {
                assert(out.selected_nodes_paths@.map_values(|s: String| s@).to_set() == setview);
                if distinct_ids(*tree_index) {
                    lemma_selected_files_shape(*tree_index, items, out.selected_files@, setview);
                }
            }
            return out;
        },
    };
    proof {
        lemma_wf_closed_at(*tree_index, i as int);
        lemma_closed_end(nodes, i as int);
    }
    let tend = subtree_end(tree_index, i);
    let mut selecting = false;
    let mut x: usize = i;
    while x < tend
        invariant_except_break
            selecting == false,
            ids_in_range(nodes, i as int, x as int).subset_of(cur0),
        invariant
            wf(*tree_index),
            nodes == tree_index.nodes@,
            nodup(set),
            set@ == cur0,
            i <= x <= tend,
            tend as int == sub_end(nodes, i as int),
            tend as int <= nodes.len(),
        ensures
            nodup(set),
            set@ == cur0,
            selecting == !ids_in_range(nodes, i as int, tend as int).subset_of(cur0),
        decreases tend - x,
    {
        if !set.contains(tree_index.nodes[x].id.as_str()) {
            selecting = true;
            proof {
                assert(!ids_in_range(nodes, i as int, tend as int).subset_of(cur0)) by {
                    assert(ids_in_range(nodes, i as int, tend as int).contains(
                        nodes[x as int].id@,
                    )) by {
                        let xi = x as int;
                        assert(i as int <= xi && xi < tend as int && nodes[xi].id@
                            == nodes[xi].id@);
                    }
                }
            }
            break ;
        }
        proof {
            lemma_range_snoc(nodes, i as int, x as int);
            assert(ids_in_range(nodes, i as int, x as int + 1).subset_of(cur0));
        }
        x = x + 1;
    }
    let ghost tgt = ids_in_range(nodes, i as int, sub_end(nodes, i as int));
    let ghost applied: Set<Seq<char>> = if !tgt.subset_of(cur0) {
        cur0 + tgt
    } else {
        cur0.difference(tgt)
    };
    let mut y: usize = i;
    while y < tend
        invariant
            wf(*tree_index),
            nodes == tree_index.nodes@,
            nodup(set),
            i <= y <= tend,
            tend as int == sub_end(nodes, i as int),
            tend as int <= nodes.len(),
            selecting == !tgt.subset_of(cur0),
            tgt == ids_in_range(nodes, i as int, sub_end(nodes, i as int)),
            selecting ==> set@ == cur0 + ids_in_range(nodes, i as int, y as int),
            !selecting ==> set@ == cur0.difference(ids_in_range(nodes, i as int, y as int)),
        decreases tend - y,
    {
        let ghost pre = set@;
        let yid: String = tree_index.nodes[y].id.clone();
        if selecting {
            set.insert(yid);
        } else {
            set.remove(yid.as_str());
        }
        proof {
            lemma_range_snoc(nodes, i as int, y as int);
            if selecting {
                assert(set@ =~= cur0 + ids_in_range(nodes, i as int, y as int + 1));
            } else {
                assert(set@ =~= cur0.difference(ids_in_range(nodes, i as int, y as int + 1)));
            }
        }
        y = y + 1;
    }
    proof {
        if selecting {
            assert(set@ == cur0 + tgt);
        } else {
            assert(set@ == cur0.difference(tgt));
        }
        assert(set@ == applied);
    }
    update_ancestors_selection(node_path, tree_index, &mut set);
    let ghost afterup = set@;
    let indeterminates = compute_indeterminate(tree_index, &set);
    let selected_files = collect_selected_files(tree_index, &set, cache, sigs, home);
    let ghost setview = set@;
    let ghost items = set.items@;
    let out = SelectionResult {
        selected_nodes_paths: set.to_vec(),
        indeterminate_nodes_paths: indeterminates.to_vec(),
        selected_files,
    };
    proof {
        assert(out.selected_nodes_paths@.map_values(|s: String| s@).to_set() == setview);
        if distinct_ids(*tree_index) {
            lemma_selected_files_shape(*tree_index, items, out.selected_files@, setview);
        }
        if distinct_ids(*tree_index) {
            let i2 = choose|i2: int|
                0 <= i2 < nodes.len() && (#[trigger] nodes[i2].id@) == node_path@ && (forall|
                    a: int,
                |
                    is_anc(nodes, a, i2) ==> (afterup.contains(#[trigger] nodes[a].id@)
                        <==> files_covered(nodes, a, sub_end(nodes, a), applied))) && (forall|
                    p: Seq<char>,
                |
                    !anc_ids(nodes, i2).contains(p) ==> afterup.contains(p) == applied.contains(
                        p,
                    ));
            lemma_distinct_id_unique(*tree_index, i2, i as int);
            lemma_closed_end(nodes, i as int);
            assert forall|x2: int|
                i as int <= x2 < sub_end(nodes, i as int) implies (setview.contains(
                #[trigger] nodes[x2].id@,
            ) <==> selecting) by {
                lemma_subtree_ids_not_anc(*tree_index, i as int, x2);
                assert(setview.contains(nodes[x2].id@) == applied.contains(nodes[x2].id@));
                assert(tgt.contains(nodes[x2].id@)) by {
                    let ii3 = i as int;
                    assert(ii3 <= x2 < sub_end(nodes, ii3) && nodes[x2].id@ == nodes[x2].id@);
                }
            }
            let ghost ii = i as int;
            assert(0 <= ii < nodes.len() && nodes[ii].id@ == node_path@ && toggled_selection(
                *tree_index,
                ii,
                cur0,
                setview,
            ));
        }
    }
    out
}

/// Clears the selection: the degenerate toggle with an empty set.  The
/// indeterminate set of an empty selection is itself empty.
pub fn clear_selection(
    tree_index: &TreeIndex,
    cache: &FileCostCache,
    sigs: &Vec<(String, FileSig)>,
    home: Option<&String>,
) -> (r: SelectionResult)
    requires
        wf(*tree_index),
    ensures
        r.selected_nodes_paths@.len() == 0,
        r.selected_files@.len() == 0,
        r.indeterminate_nodes_paths@.map_values(|s: String| s@).to_set() == indet_set(
            *tree_index,
            Set::empty(),
        ),
{
    let set = PathSet::new();
    let indeterminates = compute_indeterminate(tree_index, &set);
    let selected_files = collect_selected_files(tree_index, &set, cache, sigs, home);
    proof {
        assert(selected_files@.len() == 0);
    }
    SelectionResult {
        selected_nodes_paths: Vec::new(),
        indeterminate_nodes_paths: indeterminates.to_vec(),
        selected_files,
    }
}

/// Directory consistency: every selected directory has all of its
/// descendant files selected.  `toggle_selection` re-derives exactly this
/// for the toggled subtree and its ancestors.
pub open spec fn dir_consistent(idx: TreeIndex, sel: Set<Seq<char>>) -> bool {
    forall|i: int|
        0 <= i < idx.nodes@.len() && idx.nodes@[i].kind == NodeKind::Directory && sel.contains(
            #[trigger] idx.nodes@[i].id@,
        ) ==> files_covered(idx.nodes@, i, sub_end(idx.nodes@, i), sel)
}

/// The indeterminate set and a directory-consistent selection are
/// disjoint: a directory is never rendered both checked and indeterminate.
pub proof fn lemma_indeterminate_disjoint(idx: TreeIndex, sel: Set<Seq<char>>)
    requires
        dir_consistent(idx, sel),
    ensures
        forall|p: Seq<char>| indet_set(idx, sel).contains(p) ==> !sel.contains(p),
{
    let nodes = idx.nodes@;
    assert forall|p: Seq<char>| indet_set(idx, sel).contains(p) implies !sel.contains(p) by {
        let i = choose|i: int|
            0 <= i < nodes.len() && nodes[i].kind == NodeKind::Directory && any_file_selected(
                nodes,
                i,
                sub_end(nodes, i),
                sel,
            ) && !files_covered(nodes, i, sub_end(nodes, i), sel) && (#[trigger] nodes[i].id@)
                == p;
        if sel.contains(p) {
            assert(files_covered(nodes, i, sub_end(nodes, i), sel));
        }
    }
}

/// An id carried by a position outside the subtree at `i` is not among
/// the subtree's ids.
proof fn lemma_id_outside_subtree(idx: TreeIndex, i: int, x: int)
    requires
        wf(idx),
        distinct_ids(idx),
        0 <= i < idx.nodes@.len(),
        0 <= x < idx.nodes@.len(),
        !(i <= x < sub_end(idx.nodes@, i)),
    ensures
        !ids_in_range(idx.nodes@, i, sub_end(idx.nodes@, i)).contains(idx.nodes@[x].id@),
{
    let nodes = idx.nodes@;
    if ids_in_range(nodes, i, sub_end(nodes, i)).contains(nodes[x].id@) {
        let w = choose|w: int|
            i <= w < sub_end(nodes, i) && (#[trigger] nodes[w].id@) == nodes[x].id@;
        lemma_wf_closed_at(idx, i);
        crate::tree_facts::lemma_closed_end(nodes, i);
        lemma_distinct_id_unique(idx, w, x);
        assert(false);
    }
}

/// An id carried by a position that is not an ancestor of `i` is not on
/// `i`'s ancestor chain.
proof fn lemma_id_not_on_chain(idx: TreeIndex, i: int, x: int)
    requires
        wf(idx),
        distinct_ids(idx),
        0 <= i < idx.nodes@.len(),
        0 <= x < idx.nodes@.len(),
        !is_anc(idx.nodes@, x, i),
    ensures
        !anc_ids(idx.nodes@, i).contains(idx.nodes@[x].id@),
{
    let nodes = idx.nodes@;
    crate::search::lemma_anc_char(idx, i);
    if anc_ids(nodes, i).contains(nodes[x].id@) {
        let a = choose|a: int| is_anc(nodes, a, i) && (#[trigger] nodes[a].id@) == nodes[x].id@;
        lemma_distinct_id_unique(idx, a, x);
        assert(false);
    }
}

/// Toggling preserves directory consistency: from a selection in which
/// every selected directory is fully covered, any toggle produces another
/// such selection.  With `lemma_indeterminate_disjoint` this keeps the
/// indeterminate and selected sets disjoint across any sequence of
/// toggles that starts from a consistent selection.
pub proof fn lemma_toggle_preserves_consistency(
    idx: TreeIndex,
    i: int,
    cur0: Set<Seq<char>>,
    selview: Set<Seq<char>>,
)
    requires
        wf(idx),
        distinct_ids(idx),
        0 <= i < idx.nodes@.len(),
        dir_consistent(idx, cur0),
        toggled_selection(idx, i, cur0, selview),
    ensures
        dir_consistent(idx, selview),
{
    let nodes = idx.nodes@;
    lemma_wf_closed_at(idx, i);
    lemma_closed_end(nodes, i);
    let iend = sub_end(nodes, i);
    let tgt = ids_in_range(nodes, i, iend);
    let selecting = !tgt.subset_of(cur0);
    let applied = if selecting {
        cur0 + tgt
    } else {
        cur0.difference(tgt)
    };
    assert forall|d: int|
        0 <= d < nodes.len() && nodes[d].kind == NodeKind::Directory && selview.contains(
            #[trigger] nodes[d].id@,
        ) implies files_covered(nodes, d, sub_end(nodes, d), selview) by {
        lemma_wf_closed_at(idx, d);
        lemma_closed_end(nodes, d);
        if i <= d < iend {
            lemma_interior_closed(nodes, i, d);
            assert(selecting);
            assert forall|x: int|
                d <= x < sub_end(nodes, d) && nodes[x].kind == NodeKind::File implies selview.contains(
                #[trigger] nodes[x].id@,
            ) by {
                assert(i <= x < iend);
            }
        } else if is_anc(nodes, d, i) {
            assert(files_covered(nodes, d, sub_end(nodes, d), applied));
            assert forall|x: int|
                d <= x < sub_end(nodes, d) && nodes[x].kind == NodeKind::File implies selview.contains(
                #[trigger] nodes[x].id@,
            ) by {
                assert(applied.contains(nodes[x].id@));
                if i <= x < iend {
                    assert(tgt.contains(nodes[x].id@)) by {
                        assert(i <= x < iend && nodes[x].id@ == nodes[x].id@);
                    }
                    if !selecting {
                        assert(!applied.contains(nodes[x].id@));
                    }
                } else {
                    lemma_id_outside_subtree(idx, i, x);
                    assert(!is_anc(nodes, x, i)) by {
                        if is_anc(nodes, x, i) {
                            lemma_wf_closed_at(idx, x);
                            crate::tree_facts::lemma_closed_end(nodes, x);
                            assert(sub_end(nodes, x) == x + 1);
                        }
                    }
                    lemma_id_not_on_chain(idx, i, x);
                    assert(selview.contains(nodes[x].id@) == cur0.contains(nodes[x].id@));
                    assert(cur0.contains(nodes[x].id@) == applied.contains(nodes[x].id@));
                }
            }
        } else {
            assert(!is_anc(nodes, d, i));
            lemma_id_outside_subtree(idx, i, d);
            lemma_id_not_on_chain(idx, i, d);
            assert(cur0.contains(nodes[d].id@));
            assert(files_covered(nodes, d, sub_end(nodes, d), cur0));
            assert forall|x: int|
                d <= x < sub_end(nodes, d) && nodes[x].kind == NodeKind::File implies selview.contains(
                #[trigger] nodes[x].id@,
            ) by {
                assert(!(i <= x < iend)) by {
                    if i <= x < iend {
                        if d < i {
                            assert(is_anc(nodes, d, i));
                        } else {
                            assert(i <= d < iend);
                        }
                    }
                }
                lemma_id_outside_subtree(idx, i, x);
                assert(!is_anc(nodes, x, i)) by {
                    if is_anc(nodes, x, i) {
                        lemma_wf_closed_at(idx, x);
                        crate::tree_facts::lemma_closed_end(nodes, x);
                        assert(sub_end(nodes, x) == x + 1);
                    }
                }
                lemma_id_not_on_chain(idx, i, x);
                assert(selview.contains(nodes[x].id@) == cur0.contains(nodes[x].id@));
            }
        }
    }
}

/// Idempotent convergence: once the last unselected file beneath a
/// directory is added, the whole range of that directory is covered, so
/// the ancestor walk of the toggle marks the directory itself selected.
pub proof fn lemma_selection_converges(idx: TreeIndex, i: int, d: int, cur0: Set<Seq<char>>)
    requires
        wf(idx),
        0 <= i < idx.nodes@.len(),
        idx.nodes@[i].kind == NodeKind::File,
        is_anc(idx.nodes@, d, i),
        forall|x: int|
            d <= x < sub_end(idx.nodes@, d) && idx.nodes@[x].kind == NodeKind::File && x != i
                ==> cur0.contains(#[trigger] idx.nodes@[x].id@),
    ensures
        files_covered(
            idx.nodes@,
            d,
            sub_end(idx.nodes@, d),
            cur0 + ids_in_range(idx.nodes@, i, sub_end(idx.nodes@, i)),
        ),
{
    let nodes = idx.nodes@;
    lemma_wf_closed_at(idx, i);
    lemma_closed_end(nodes, i);
    let sel = cur0 + ids_in_range(nodes, i, sub_end(nodes, i));
    assert forall|x: int|
        d <= x < sub_end(nodes, d) && nodes[x].kind == NodeKind::File implies sel.contains(
        #[trigger] nodes[x].id@,
    ) by {
        if x == i {
            assert(ids_in_range(nodes, i, sub_end(nodes, i)).contains(nodes[i].id@)) by {
                assert(i <= i < sub_end(nodes, i) && nodes[i].id@ == nodes[i].id@);
            }
        } else {
            assert(cur0.contains(nodes[x].id@));
        }
    }
}

} // verus!
