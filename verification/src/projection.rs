//! Pure projections over a built index: materializing the full forest,
//! pruning by a keep-set, ancestor and descendant closures, and counting
//! genuine matches in a projected forest.

use vstd::prelude::*;

use crate::model::{closed, distinct_ids, sub_end, wf, DirectoryNode, NodeInfo, NodeKind, NodeTree, TreeIndex};
use crate::paths::{nodup, PathSet};
use crate::tree_facts::{lemma_closed_end, lemma_interior_closed, lemma_wf_parent};

verus! {

/// The ids of the result forest in depth-first order, from position `k` on.
pub open spec fn flat_from(s: Seq<DirectoryNode>, k: int) -> Seq<Seq<char>>
    decreases s, s.len() - k,
{
    if 0 <= k < s.len() {
        flat_one_ids(s[k]) + flat_from(s, k + 1)
    } else {
        Seq::empty()
    }
}

/// The ids of one nested node and its whole subtree, in depth-first order.
pub open spec fn flat_one_ids(n: DirectoryNode) -> Seq<Seq<char>>
    decreases n, 0int,
{
    seq![n.id@] + flat_from(n.children@, 0)
}

/// The ids of a whole result forest, in depth-first order.
pub open spec fn flat_forest_ids(s: Seq<DirectoryNode>) -> Seq<Seq<char>> {
    flat_from(s, 0)
}

/// The nested node is an exact materialization of the subtree at store
/// position `i`: same id, title and kind, and children mirroring the
/// store's children in order, recursively.
pub open spec fn mirrors(idx: TreeIndex, i: int, n: DirectoryNode) -> bool
    decreases n, 0int,
{
    &&& 0 <= i < idx.nodes@.len()
    &&& n.id@ == idx.nodes@[i].id@
    &&& n.title@ == idx.nodes@[i].title@
    &&& n.kind == idx.nodes@[i].kind
    &&& n.children@.len() == idx.nodes@[i].children@.len()
    &&& (forall|k: int|
        0 <= k < n.children@.len() ==> mirrors(
            idx,
            idx.nodes@[i].children@[k] as int,
            #[trigger] n.children@[k],
        ))
}

/// The ids of the store positions in `[lo, hi)`, in position order.
pub open spec fn all_ids(nodes: Seq<NodeInfo>, lo: int, hi: int) -> Seq<Seq<char>>
    decreases hi - lo,
{
    if lo < hi {
        seq![nodes[lo].id@] + all_ids(nodes, lo + 1, hi)
    } else {
        Seq::empty()
    }
}

/// The set of ids of the store positions in `[lo, hi)`.
pub open spec fn ids_in_range(nodes: Seq<NodeInfo>, lo: int, hi: int) -> Set<Seq<char>> {
    Set::new(|p: Seq<char>| exists|j: int| lo <= j < hi && (#[trigger] nodes[j].id@) == p)
}

/// Node `j` survives pruning by `keep`: some position of its subtree range
/// carries a kept id.  A file survives exactly when its own id is kept; a
/// directory also survives through any surviving descendant.
pub open spec fn survives(nodes: Seq<NodeInfo>, j: int, keep: Set<Seq<char>>) -> bool {
    exists|x: int| j <= x < sub_end(nodes, j) && keep.contains(#[trigger] nodes[x].id@)
}

/// The ids of the surviving positions in `[lo, hi)`, in position order:
/// what a pruned projection of that range shows.
pub open spec fn kept_ids(nodes: Seq<NodeInfo>, lo: int, hi: int, keep: Set<Seq<char>>) -> Seq<
    Seq<char>,
>
    decreases hi - lo,
{
    if lo < hi {
        if survives(nodes, lo, keep) {
            seq![nodes[lo].id@] + kept_ids(nodes, lo + 1, hi, keep)
        } else {
            kept_ids(nodes, lo + 1, hi, keep)
        }
    } else {
        Seq::empty()
    }
}

/// The store-position children of `i` that survive pruning, among the
/// first `k` children, in order.
pub open spec fn surv_children_upto(
    idx: TreeIndex,
    i: int,
    keep: Set<Seq<char>>,
    k: int,
) -> Seq<usize>
    decreases k,
{
    if k <= 0 {
        Seq::empty()
    } else {
        surv_children_upto(idx, i, keep, k - 1) + (if survives(
            idx.nodes@,
            idx.nodes@[i].children@[k - 1] as int,
            keep,
        ) {
            seq![idx.nodes@[i].children@[k - 1]]
        } else {
            Seq::empty()
        })
    }
}

/// All the surviving children of `i`, in order.
pub open spec fn surviving_children(idx: TreeIndex, i: int, keep: Set<Seq<char>>) -> Seq<usize> {
    surv_children_upto(idx, i, keep, idx.nodes@[i].children@.len() as int)
}

/// The nested node is the pruned materialization of the subtree at store
/// position `i`: same fields, its children exactly the surviving children
/// in order, each itself pruned.
pub open spec fn pruned_mirrors(
    idx: TreeIndex,
    i: int,
    keep: Set<Seq<char>>,
    n: DirectoryNode,
) -> bool
    decreases n, 0int,
{
    &&& 0 <= i < idx.nodes@.len()
    &&& n.id@ == idx.nodes@[i].id@
    &&& n.title@ == idx.nodes@[i].title@
    &&& n.kind == idx.nodes@[i].kind
    &&& n.children@.len() == surviving_children(idx, i, keep).len()
    &&& (forall|t: int|
        0 <= t < n.children@.len() ==> pruned_mirrors(
            idx,
            surviving_children(idx, i, keep)[t] as int,
            keep,
            #[trigger] n.children@[t],
        ))
}

/// The top-level positions that survive pruning, among the first `k`.
pub open spec fn surv_tops_upto(idx: TreeIndex, keep: Set<Seq<char>>, k: int) -> Seq<usize>
    decreases k,
{
    if k <= 0 {
        Seq::empty()
    } else {
        surv_tops_upto(idx, keep, k - 1) + (if survives(
            idx.nodes@,
            idx.top_level@[k - 1] as int,
            keep,
        ) {
            seq![idx.top_level@[k - 1]]
        } else {
            Seq::empty()
        })
    }
}

/// How many entries of `ids` the set `m` contains, duplicates counted.
pub open spec fn count_in(ids: Seq<Seq<char>>, m: Set<Seq<char>>) -> int
    decreases ids.len(),
{
    if ids.len() == 0 {
        0
    } else {
        (if m.contains(ids[0]) {
            1int
        } else {
            0int
        }) + count_in(ids.subrange(1, ids.len() as int), m)
    }
}

/// Ranges of ids concatenate.
pub proof fn lemma_all_ids_concat(nodes: Seq<NodeInfo>, lo: int, mid: int, hi: int)
    requires
        lo <= mid <= hi,
    ensures
        all_ids(nodes, lo, mid) + all_ids(nodes, mid, hi) == all_ids(nodes, lo, hi),
    decreases mid - lo,
{
    if lo < mid {
        lemma_all_ids_concat(nodes, lo + 1, mid, hi);
        assert(all_ids(nodes, lo, mid) + all_ids(nodes, mid, hi) =~= all_ids(nodes, lo, hi));
    } else {
        assert(all_ids(nodes, lo, mid) + all_ids(nodes, mid, hi) =~= all_ids(nodes, mid, hi));
    }
}

/// The id list of a range has one entry per position.
pub proof fn lemma_all_ids_len(nodes: Seq<NodeInfo>, lo: int, hi: int)
    requires
        lo <= hi,
    ensures
        all_ids(nodes, lo, hi).len() == hi - lo,
    decreases hi - lo,
{
    if lo < hi {
        lemma_all_ids_len(nodes, lo + 1, hi);
    }
}

/// Appending one more subtree to a result forest appends its ids.
pub proof fn lemma_flat_push(s: Seq<DirectoryNode>, x: DirectoryNode, k: int)
    requires
        0 <= k <= s.len(),
    ensures
        flat_from(s.push(x), k) == flat_from(s, k) + flat_one_ids(x),
    decreases s.len() - k,
{
    if k < s.len() {
        lemma_flat_push(s, x, k + 1);
        assert(s.push(x)[k] == s[k]);
        assert(flat_from(s.push(x), k) =~= flat_from(s, k) + flat_one_ids(x));
    } else {
        assert(s.push(x).len() == s.len() + 1);
        assert(s.push(x)[k] == x);
        assert(flat_from(s.push(x), k) == flat_one_ids(x) + flat_from(s.push(x), k + 1));
        assert(flat_from(s.push(x), k + 1) =~= Seq::<Seq<char>>::empty());
        assert(flat_one_ids(x) + Seq::<Seq<char>>::empty() =~= flat_one_ids(x));
        assert(flat_from(s, k) =~= Seq::<Seq<char>>::empty());
        assert(flat_from(s, k) + flat_one_ids(x) =~= flat_one_ids(x));
    }
}

/// Materializes the subtree at position `i` into a nested node, adding the
/// number of nodes built to `counter`: exactly the size of the range.
fn build_all(idx: &TreeIndex, i: usize, counter: &mut usize) -> (r: DirectoryNode)
    requires
        closed(idx.nodes@, i as int),
        *old(counter) + sub_end(idx.nodes@, i as int) - i <= usize::MAX,
    ensures
        *final(counter) == *old(counter) + sub_end(idx.nodes@, i as int) - i,
        flat_one_ids(r) == all_ids(idx.nodes@, i as int, sub_end(idx.nodes@, i as int)),
        r.id@ == idx.nodes@[i as int].id@,
        r.title@ == idx.nodes@[i as int].title@,
        r.kind == idx.nodes@[i as int].kind,
        mirrors(*idx, i as int, r),
    decreases idx.nodes@.len() - i,
{
    proof {
        lemma_closed_end(idx.nodes@, i as int);
    }
    *counter = *counter + 1;
    let info = &idx.nodes[i];
    let mut children: Vec<DirectoryNode> = Vec::new();
    let ghost nodes = idx.nodes@;
    let ghost ch = info.children@;
    let mut k: usize = 0;
    while k < info.children.len()
        invariant
            closed(nodes, i as int),
            nodes == idx.nodes@,
            ch == nodes[i as int].children@,
            info.children@ == ch,
            k <= ch.len(),
            children@.len() == k,
            forall|t: int|
                0 <= t < k ==> mirrors(*idx, ch[t] as int, #[trigger] children@[t]),
            *counter + sub_end(nodes, i as int) - (if k < ch.len() {
                ch[k as int] as int
            } else {
                sub_end(nodes, i as int)
            }) <= usize::MAX,
            *counter == *old(counter) + 1 + (if k < ch.len() {
                ch[k as int] as int
            } else {
                sub_end(nodes, i as int)
            }) - (i + 1),
            flat_from(children@, 0) == all_ids(
                nodes,
                i + 1,
                if k < ch.len() {
                    ch[k as int] as int
                } else {
                    sub_end(nodes, i as int)
                },
            ),
        decreases ch.len() - k,
    {
        let c = info.children[k];
        proof {
            assert(closed(nodes, c as int));
            lemma_closed_end(nodes, c as int);
            crate::tree_facts::lemma_child_range(nodes, i as int, k as int);
            if k + 1 < ch.len() {
                assert((ch[k as int + 1] as int) == sub_end(nodes, c as int));
            } else {
                assert(sub_end(nodes, i as int) == sub_end(nodes, ch[ch.len() - 1] as int));
            }
        }
        let ghost pre_children = children@;
        let child = build_all(idx, c, counter);
        children.push(child);
        proof {
            lemma_flat_push(pre_children, child, 0);
            assert forall|t: int| 0 <= t < k + 1 implies mirrors(
                *idx,
                ch[t] as int,
                #[trigger] children@[t],
            ) by {
                if t < k {
                    assert(children@[t] == pre_children[t]);
                }
            }
            let nxt: int = if k + 1 < ch.len() {
                ch[k as int + 1] as int
            } else {
                sub_end(nodes, i as int)
            };
            lemma_all_ids_concat(nodes, i + 1, c as int, nxt);
            lemma_all_ids_concat(nodes, c as int, sub_end(nodes, c as int), nxt);
            assert(sub_end(nodes, c as int) == nxt);
            assert(all_ids(nodes, sub_end(nodes, c as int), nxt) =~= Seq::<Seq<char>>::empty());
            assert(all_ids(nodes, c as int, nxt) == flat_one_ids(child));
            assert(flat_from(children@, 0) =~= all_ids(nodes, i + 1, nxt));
        }
        k = k + 1;
    }
    let r = DirectoryNode {
        id: info.id.clone(),
        title: info.title.clone(),
        kind: info.kind,
        children,
    };
    proof {
        assert(flat_one_ids(r) =~= seq![nodes[i as int].id@] + all_ids(
            nodes,
            i + 1,
            sub_end(nodes, i as int),
        ));
        assert(all_ids(nodes, i as int, sub_end(nodes, i as int)) == seq![nodes[i as int].id@]
            + all_ids(nodes, i + 1, sub_end(nodes, i as int)));
        assert(mirrors(*idx, i as int, r));
    }
    r
}

/// Materializes the whole forest of a well-formed index, counting every
/// node: the count equals the size of the flattened store.
pub fn build_full_tree(idx: &TreeIndex) -> (r: NodeTree)
    requires
        wf(*idx),
    ensures
        r.total_nodes == idx.nodes@.len(),
        flat_forest_ids(r.nodes@) == all_ids(idx.nodes@, 0, idx.nodes@.len() as int),
        r.nodes@.len() == idx.top_level@.len(),
        forall|k: int|
            0 <= k < r.nodes@.len() ==> mirrors(
                *idx,
                idx.top_level@[k] as int,
                #[trigger] r.nodes@[k],
            ) && flat_one_ids(r.nodes@[k]) == all_ids(
                idx.nodes@,
                idx.top_level@[k] as int,
                sub_end(idx.nodes@, idx.top_level@[k] as int),
            ),
{
    let ghost nodes = idx.nodes@;
    let ghost tops = idx.top_level@;
    let store_len = idx.nodes.len();
    let mut node_count: usize = 0;
    let mut out: Vec<DirectoryNode> = Vec::new();
    let mut k: usize = 0;
    while k < idx.top_level.len()
        invariant
            wf(*idx),
            nodes == idx.nodes@,
            tops == idx.top_level@,
            store_len == nodes.len(),
            k <= tops.len(),
            out@.len() == k,
            forall|t: int|
                0 <= t < k ==> mirrors(*idx, tops[t] as int, #[trigger] out@[t]) && flat_one_ids(
                    out@[t],
                ) == all_ids(nodes, tops[t] as int, sub_end(nodes, tops[t] as int)),
            node_count == (if k < tops.len() {
                tops[k as int] as int
            } else {
                nodes.len() as int
            }),
            flat_from(out@, 0) == all_ids(
                nodes,
                0,
                if k < tops.len() {
                    tops[k as int] as int
                } else {
                    nodes.len() as int
                },
            ),
        decreases tops.len() - k,
    {
        let t = idx.top_level[k];
        proof {
            assert(closed(nodes, t as int));
            lemma_closed_end(nodes, t as int);
            if k + 1 < tops.len() {
                assert((tops[k as int + 1] as int) == sub_end(nodes, t as int));
            } else {
                assert(sub_end(nodes, tops[tops.len() - 1] as int) == nodes.len());
            }
        }
        let ghost pre_out = out@;
        let built = build_all(idx, t, &mut node_count);
        out.push(built);
        proof {
            lemma_flat_push(pre_out, built, 0);
            assert forall|t2: int| 0 <= t2 < k + 1 implies mirrors(
                *idx,
                tops[t2] as int,
                #[trigger] out@[t2],
            ) && flat_one_ids(out@[t2]) == all_ids(
                nodes,
                tops[t2] as int,
                sub_end(nodes, tops[t2] as int),
            ) by {
                if t2 < k {
                    assert(out@[t2] == pre_out[t2]);
                }
            }
            let nxt: int = if k + 1 < tops.len() {
                tops[k as int + 1] as int
            } else {
                nodes.len() as int
            };
            assert(sub_end(nodes, t as int) == nxt);
            lemma_all_ids_concat(nodes, 0, t as int, nxt);
            assert(flat_from(out@, 0) =~= all_ids(nodes, 0, nxt));
        }
        k = k + 1;
    }
    proof {
        if tops.len() == 0 {
            assert(nodes.len() == 0);
        }
    }
    NodeTree { nodes: out, total_nodes: node_count }
}

/// Some store position carries this id.
pub open spec fn has_id(idx: TreeIndex, p: Seq<char>) -> bool {
    exists|j: int| 0 <= j < idx.nodes@.len() && (#[trigger] idx.nodes@[j].id@) == p
}

/// The first store position carrying this id, if any.
pub fn find_node(idx: &TreeIndex, id: &str) -> (r: Option<usize>)
    ensures
        match r {
            Some(i) => (i as int) < idx.nodes@.len() && idx.nodes@[i as int].id@ == id@,
            None => !has_id(*idx, id@),
        },
{
    let mut k: usize = 0;
    while k < idx.nodes.len()
        invariant
            k <= idx.nodes@.len(),
            forall|j: int| 0 <= j < k ==> (#[trigger] idx.nodes@[j].id@) != id@,
        decreases idx.nodes@.len() - k,
    {
        if crate::strutil::str_eq(idx.nodes[k].id.as_str(), id) {
            return Some(k);
        }
        k = k + 1;
    }
    None
}

/// Ranges of kept ids concatenate.
pub proof fn lemma_kept_concat(
    nodes: Seq<NodeInfo>,
    lo: int,
    mid: int,
    hi: int,
    keep: Set<Seq<char>>,
)
    requires
        lo <= mid <= hi,
    ensures
        kept_ids(nodes, lo, mid, keep) + kept_ids(nodes, mid, hi, keep) == kept_ids(
            nodes,
            lo,
            hi,
            keep,
        ),
    decreases mid - lo,
{
    if lo < mid {
        lemma_kept_concat(nodes, lo + 1, mid, hi, keep);
        assert(kept_ids(nodes, lo, mid, keep) + kept_ids(nodes, mid, hi, keep) =~= kept_ids(
            nodes,
            lo,
            hi,
            keep,
        ));
    } else {
        assert(kept_ids(nodes, lo, mid, keep) + kept_ids(nodes, mid, hi, keep) =~= kept_ids(
            nodes,
            mid,
            hi,
            keep,
        ));
    }
}

/// A range where nothing survives shows nothing.
proof fn lemma_kept_all_dead(nodes: Seq<NodeInfo>, lo: int, hi: int, keep: Set<Seq<char>>)
    requires
        forall|j: int| lo <= j < hi ==> !survives(nodes, j, keep),
    ensures
        kept_ids(nodes, lo, hi, keep) == Seq::<Seq<char>>::empty(),
    decreases hi - lo,
{
    if lo < hi {
        lemma_kept_all_dead(nodes, lo + 1, hi, keep);
    }
}

/// If the subtree at `i` does not survive, its whole range shows nothing.
pub proof fn lemma_kept_none(nodes: Seq<NodeInfo>, i: int, keep: Set<Seq<char>>)
    requires
        closed(nodes, i),
        !survives(nodes, i, keep),
    ensures
        kept_ids(nodes, i, sub_end(nodes, i), keep) == Seq::<Seq<char>>::empty(),
{
    let hi = sub_end(nodes, i);
    assert forall|j: int| i <= j < hi implies !survives(nodes, j, keep) by {
        lemma_interior_closed(nodes, i, j);
        if survives(nodes, j, keep) {
            let x = choose|x: int|
                j <= x < sub_end(nodes, j) && keep.contains(#[trigger] nodes[x].id@);
            assert(i <= x < hi && keep.contains(nodes[x].id@));
        }
    }
    lemma_kept_all_dead(nodes, i, hi, keep);
}

/// A surviving position inside a range makes the range's projection
/// non-empty.
pub proof fn lemma_kept_pos(
    nodes: Seq<NodeInfo>,
    lo: int,
    j: int,
    hi: int,
    keep: Set<Seq<char>>,
)
    requires
        lo <= j < hi,
        survives(nodes, j, keep),
    ensures
        kept_ids(nodes, lo, hi, keep).len() > 0,
    decreases j - lo,
{
    if lo < j {
        lemma_kept_pos(nodes, lo + 1, j, hi, keep);
    }
}

/// Prunes the subtree at position `i` by the keep-set: kept files stay,
/// directories stay when kept themselves or when any child range survives,
/// and everything else is dropped.
pub(crate) fn pruned_from(idx: &TreeIndex, i: usize, keep: &PathSet) -> (r: Option<DirectoryNode>)
    requires
        closed(idx.nodes@, i as int),
    ensures
        match r {
            Some(t) => survives(idx.nodes@, i as int, keep@) && flat_one_ids(t) == kept_ids(
                idx.nodes@,
                i as int,
                sub_end(idx.nodes@, i as int),
                keep@,
            ) && t.id@ == idx.nodes@[i as int].id@ && t.kind == idx.nodes@[i as int].kind,
            None => !survives(idx.nodes@, i as int, keep@),
        },
        r matches Some(t) ==> pruned_mirrors(*idx, i as int, keep@, t),
    decreases idx.nodes@.len() - i,
{
    proof {
        lemma_closed_end(idx.nodes@, i as int);
    }
    let ghost nodes = idx.nodes@;
    let info = &idx.nodes[i];
    let kept_here = keep.contains(info.id.as_str());
    if matches!(info.kind, NodeKind::File) {
        proof {
            assert(nodes[i as int].children@.len() == 0);
            assert(sub_end(nodes, i as int) == i + 1);
        }
        if kept_here {
            let r = DirectoryNode {
                id: info.id.clone(),
                title: info.title.clone(),
                kind: info.kind,
                children: Vec::new(),
            };
            proof {
                assert(survives(nodes, i as int, keep@)) by {
                    let ii = i as int;
                    assert(ii <= ii < sub_end(nodes, ii) && keep@.contains(nodes[ii].id@));
                }
                assert(flat_one_ids(r) =~= seq![nodes[i as int].id@]);
                assert(kept_ids(nodes, i + 1, i + 1, keep@) =~= Seq::<Seq<char>>::empty());
                assert(kept_ids(nodes, i as int, i + 1, keep@) =~= seq![nodes[i as int].id@]);
                assert(pruned_mirrors(*idx, i as int, keep@, r));
            }
            return Some(r);
        } else {
            proof {
                if survives(nodes, i as int, keep@) {
                    let x = choose|x: int|
                        i as int <= x < sub_end(nodes, i as int) && keep@.contains(
                            #[trigger] nodes[x].id@,
                        );
                    assert(x == i as int);
                }
            }
            return None;
        }
    }
    let ghost ch = info.children@;
    let mut pruned_children: Vec<DirectoryNode> = Vec::new();
    let mut k: usize = 0;
    while k < info.children.len()
        invariant
            closed(nodes, i as int),
            nodes == idx.nodes@,
            ch == nodes[i as int].children@,
            info.children@ == ch,
            info.id@ == nodes[i as int].id@,
            info.title@ == nodes[i as int].title@,
            info.kind == nodes[i as int].kind,
            k <= ch.len(),
            pruned_children@.len() == surv_children_upto(*idx, i as int, keep@, k as int).len(),
            forall|t: int|
                0 <= t < pruned_children@.len() ==> pruned_mirrors(
                    *idx,
                    surv_children_upto(*idx, i as int, keep@, k as int)[t] as int,
                    keep@,
                    #[trigger] pruned_children@[t],
                ),
            flat_from(pruned_children@, 0) == kept_ids(
                nodes,
                i + 1,
                if k < ch.len() {
                    ch[k as int] as int
                } else {
                    sub_end(nodes, i as int)
                },
                keep@,
            ),
        decreases ch.len() - k,
    {
        let c = info.children[k];
        proof {
            assert(closed(nodes, c as int));
            lemma_closed_end(nodes, c as int);
            crate::tree_facts::lemma_child_range(nodes, i as int, k as int);
            if k + 1 < ch.len() {
                assert((ch[k as int + 1] as int) == sub_end(nodes, c as int));
            } else {
                assert(sub_end(nodes, i as int) == sub_end(nodes, ch[ch.len() - 1] as int));
            }
        }
        let ghost pre_children = pruned_children@;
        let ghost nxt: int = if k + 1 < ch.len() {
            ch[k as int + 1] as int
        } else {
            sub_end(nodes, i as int)
        };
        match pruned_from(idx, c, keep) {
            Some(child) => {
                pruned_children.push(child);
                proof {
                    let up1 = surv_children_upto(*idx, i as int, keep@, k + 1);
                    let up0 = surv_children_upto(*idx, i as int, keep@, k as int);
                    assert(up1 =~= up0 + seq![ch[k as int]]);
                    assert forall|t: int|
                        0 <= t < pruned_children@.len() implies pruned_mirrors(
                        *idx,
                        up1[t] as int,
                        keep@,
                        #[trigger] pruned_children@[t],
                    ) by {
                        if t < up0.len() {
                            assert(pruned_children@[t] == pre_children[t]);
                            assert(up1[t] == up0[t]);
                        } else {
                            assert(up1[t] == ch[k as int]);
                        }
                    }
                    lemma_flat_push(pre_children, child, 0);
                    lemma_kept_concat(nodes, i + 1, c as int, nxt, keep@);
                    lemma_kept_concat(nodes, c as int, sub_end(nodes, c as int), nxt, keep@);
                    assert(sub_end(nodes, c as int) == nxt);
                    assert(kept_ids(nodes, sub_end(nodes, c as int), nxt, keep@) =~= Seq::<
                        Seq<char>,
                    >::empty());
                    assert(flat_from(pruned_children@, 0) =~= kept_ids(nodes, i + 1, nxt, keep@));
                }
            },
            None => {
                proof {
                    assert(surv_children_upto(*idx, i as int, keep@, k + 1)
                        =~= surv_children_upto(*idx, i as int, keep@, k as int));
                    lemma_kept_none(nodes, c as int, keep@);
                    lemma_kept_concat(nodes, i + 1, c as int, nxt, keep@);
                    assert(sub_end(nodes, c as int) == nxt);
                    assert(flat_from(pruned_children@, 0) =~= kept_ids(nodes, i + 1, nxt, keep@));
                }
            },
        }
        k = k + 1;
    }
    if kept_here || pruned_children.len() > 0 {
        let r = DirectoryNode {
            id: info.id.clone(),
            title: info.title.clone(),
            kind: info.kind,
            children: pruned_children,
        };
        proof {
            let hi = sub_end(nodes, i as int);
            if kept_here {
                assert(survives(nodes, i as int, keep@)) by {
                    let ii = i as int;
                    assert(ii <= ii < hi && keep@.contains(nodes[ii].id@));
                }
            } else {
                assert(pruned_children@.len() > 0);
                assert(flat_from(pruned_children@, 0) == flat_one_ids(pruned_children@[0])
                    + flat_from(pruned_children@, 1));
                assert(flat_one_ids(pruned_children@[0]).len() >= 1);
                assert(kept_ids(nodes, i + 1, hi, keep@).len() > 0);
                if kept_ids(nodes, i + 1, hi, keep@).len() > 0 {
                    assert(exists|j: int| i + 1 <= j < hi && survives(nodes, j, keep@)) by {
                        lemma_kept_survivor(nodes, i + 1, hi, keep@);
                    }
                    let j = choose|j: int| i + 1 <= j < hi && survives(nodes, j, keep@);
                    lemma_interior_closed(nodes, i as int, j);
                    let x = choose|x: int|
                        j <= x < sub_end(nodes, j) && keep@.contains(#[trigger] nodes[x].id@);
                    assert(i as int <= x < hi && keep@.contains(nodes[x].id@));
                }
            }
            assert(flat_one_ids(r) == seq![nodes[i as int].id@] + kept_ids(
                nodes,
                i + 1,
                hi,
                keep@,
            ));
            assert(kept_ids(nodes, i as int, hi, keep@) == seq![nodes[i as int].id@] + kept_ids(
                nodes,
                i + 1,
                hi,
                keep@,
            ));
            assert(pruned_mirrors(*idx, i as int, keep@, r));
        }
        Some(r)
    } else {
        proof {
            let hi = sub_end(nodes, i as int);
            assert(kept_ids(nodes, i + 1, hi, keep@) =~= Seq::<Seq<char>>::empty());
            if survives(nodes, i as int, keep@) {
                let x = choose|x: int|
                    i as int <= x < hi && keep@.contains(#[trigger] nodes[x].id@);
                assert(!keep@.contains(nodes[i as int].id@));
                assert(i + 1 <= x < hi);
                lemma_interior_closed(nodes, i as int, x);
                lemma_closed_end(nodes, x);
                assert(survives(nodes, x, keep@)) by {
                    assert(x < sub_end(nodes, x) && keep@.contains(nodes[x].id@));
                }
                lemma_kept_pos(nodes, i + 1, x, hi, keep@);
            }
        }
        None
    }
}

/// The ids of every strict ancestor of position `i`, following parent
/// links upward.
pub open spec fn anc_ids(nodes: Seq<NodeInfo>, i: int) -> Set<Seq<char>>
    decreases i,
{
    if 0 <= i < nodes.len() {
        match nodes[i].parent {
            Option::Some(p) => if (p as int) < i {
                anc_ids(nodes, p as int).insert(nodes[p as int].id@)
            } else {
                Set::empty()
            },
            Option::None => Set::empty(),
        }
    } else {
        Set::empty()
    }
}

/// Adds every ancestor of the node with this id to the accumulator; an
/// unknown id leaves it untouched.
pub fn add_ancestors(id: &str, idx: &TreeIndex, acc: &mut PathSet)
    requires
        wf(*idx),
        nodup(*old(acc)),
    ensures
        nodup(*final(acc)),
        !has_id(*idx, id@) ==> final(acc)@ == old(acc)@,
        has_id(*idx, id@) ==> exists|i: int|
            0 <= i < idx.nodes@.len() && (#[trigger] idx.nodes@[i].id@) == id@ && final(acc)@
                == old(acc)@ + anc_ids(idx.nodes@, i),
{
    let ghost nodes = idx.nodes@;
    match find_node(idx, id) {
        Some(i0) => {
            let mut cur: usize = i0;
            loop
                invariant
                    wf(*idx),
                    nodes == idx.nodes@,
                    nodup(*acc),
                    (cur as int) < nodes.len(),
                    acc@ + anc_ids(nodes, cur as int) == old(acc)@ + anc_ids(nodes, i0 as int),
                ensures
                    nodup(*acc),
                    acc@ == old(acc)@ + anc_ids(nodes, i0 as int),
                decreases cur,
            {
                let parent_slot = idx.nodes[cur].parent;
                match parent_slot {
                    Some(p) => {
                        proof {
                            lemma_wf_parent(*idx, cur as int);
                        }
                        let ghost pre = acc@;
                        let pid: String = idx.nodes[p].id.clone();
                        acc.insert(pid);
                        proof {
                            assert(anc_ids(nodes, cur as int) == anc_ids(nodes, p as int).insert(
                                nodes[p as int].id@,
                            ));
                            assert(acc@ + anc_ids(nodes, p as int) =~= pre + anc_ids(
                                nodes,
                                cur as int,
                            ));
                        }
                        cur = p;
                    },
                    None => {
                        proof {
                            assert(anc_ids(nodes, cur as int) =~= Set::<Seq<char>>::empty());
                            assert(acc@ + anc_ids(nodes, cur as int) =~= acc@);
                        }
                        break ;
                    },
                }
            }
            proof {
                assert(0 <= (i0 as int) && (i0 as int) < nodes.len() && nodes[i0 as int].id@
                    == id@);
            }
        },
        None => {
            proof {
                assert(old(acc)@ + Set::<Seq<char>>::empty() =~= old(acc)@);
            }
        },
    }
}

/// Splitting a position range splits its id set.
pub proof fn lemma_range_split(nodes: Seq<NodeInfo>, lo: int, mid: int, hi: int)
    requires
        lo <= mid <= hi,
    ensures
        ids_in_range(nodes, lo, hi) == ids_in_range(nodes, lo, mid) + ids_in_range(
            nodes,
            mid,
            hi,
        ),
{
    let a = ids_in_range(nodes, lo, mid) + ids_in_range(nodes, mid, hi);
    assert forall|p: Seq<char>| ids_in_range(nodes, lo, hi).contains(p) implies a.contains(p) by {
        let j = choose|j: int| lo <= j < hi && (#[trigger] nodes[j].id@) == p;
        if j < mid {
            assert(ids_in_range(nodes, lo, mid).contains(p));
        } else {
            assert(ids_in_range(nodes, mid, hi).contains(p));
        }
    }
    assert forall|p: Seq<char>| a.contains(p) implies ids_in_range(nodes, lo, hi).contains(p) by {
        if ids_in_range(nodes, lo, mid).contains(p) {
            let j = choose|j: int| lo <= j < mid && (#[trigger] nodes[j].id@) == p;
            assert(lo <= j < hi && nodes[j].id@ == p);
        } else {
            let j = choose|j: int| mid <= j < hi && (#[trigger] nodes[j].id@) == p;
            assert(lo <= j < hi && nodes[j].id@ == p);
        }
    }
    assert(ids_in_range(nodes, lo, hi) =~= a);
}

/// A non-empty range's id set starts with the id at its head.
pub proof fn lemma_range_head(nodes: Seq<NodeInfo>, lo: int, hi: int)
    requires
        lo < hi,
    ensures
        ids_in_range(nodes, lo, hi) == ids_in_range(nodes, lo + 1, hi).insert(nodes[lo].id@),
{
    let a = ids_in_range(nodes, lo + 1, hi).insert(nodes[lo].id@);
    assert forall|p: Seq<char>| ids_in_range(nodes, lo, hi).contains(p) implies a.contains(p) by {
        let j = choose|j: int| lo <= j < hi && (#[trigger] nodes[j].id@) == p;
        if j > lo {
            assert(ids_in_range(nodes, lo + 1, hi).contains(p));
        }
    }
    assert forall|p: Seq<char>| a.contains(p) implies ids_in_range(nodes, lo, hi).contains(p) by {
        if p == nodes[lo].id@ {
            assert(lo <= lo < hi && nodes[lo].id@ == p);
        } else {
            let j = choose|j: int| lo + 1 <= j < hi && (#[trigger] nodes[j].id@) == p;
            assert(lo <= j < hi && nodes[j].id@ == p);
        }
    }
    assert(ids_in_range(nodes, lo, hi) =~= a);
}

/// An empty range has no ids.
pub proof fn lemma_range_empty(nodes: Seq<NodeInfo>, lo: int, hi: int)
    requires
        hi <= lo,
    ensures
        ids_in_range(nodes, lo, hi) == Set::<Seq<char>>::empty(),
{
    assert(ids_in_range(nodes, lo, hi) =~= Set::<Seq<char>>::empty());
}

/// Adds the ids of the whole range below position `i` to the accumulator.
fn desc_from(idx: &TreeIndex, i: usize, acc: &mut PathSet)
    requires
        closed(idx.nodes@, i as int),
        nodup(*old(acc)),
    ensures
        nodup(*final(acc)),
        final(acc)@ == old(acc)@ + ids_in_range(
            idx.nodes@,
            i + 1,
            sub_end(idx.nodes@, i as int),
        ),
    decreases idx.nodes@.len() - i,
{
    proof {
        lemma_closed_end(idx.nodes@, i as int);
    }
    let ghost nodes = idx.nodes@;
    let info = &idx.nodes[i];
    let ghost ch = info.children@;
    let mut k: usize = 0;
    proof {
        lemma_range_empty(nodes, i + 1, if ch.len() > 0 {
            ch[0] as int
        } else {
            sub_end(nodes, i as int)
        });
        assert(old(acc)@ + Set::<Seq<char>>::empty() =~= old(acc)@);
    }
    while k < info.children.len()
        invariant
            closed(nodes, i as int),
            nodes == idx.nodes@,
            ch == nodes[i as int].children@,
            info.children@ == ch,
            nodup(*acc),
            k <= ch.len(),
            acc@ == old(acc)@ + ids_in_range(
                nodes,
                i + 1,
                if k < ch.len() {
                    ch[k as int] as int
                } else {
                    sub_end(nodes, i as int)
                },
            ),
        decreases ch.len() - k,
    {
        let c = info.children[k];
        proof {
            assert(closed(nodes, c as int));
            lemma_closed_end(nodes, c as int);
            crate::tree_facts::lemma_child_range(nodes, i as int, k as int);
            if k + 1 < ch.len() {
                assert((ch[k as int + 1] as int) == sub_end(nodes, c as int));
            } else {
                assert(sub_end(nodes, i as int) == sub_end(nodes, ch[ch.len() - 1] as int));
            }
        }
        let ghost nxt: int = if k + 1 < ch.len() {
            ch[k as int + 1] as int
        } else {
            sub_end(nodes, i as int)
        };
        let ghost pre = acc@;
        let cid: String = info.id.clone();
        let child_id: String = idx.nodes[c].id.clone();
        acc.insert(child_id);
        desc_from(idx, c, acc);
        proof {
            lemma_range_split(nodes, i + 1, c as int, nxt);
            lemma_range_head(nodes, c as int, nxt);
            assert(sub_end(nodes, c as int) == nxt);
            assert(acc@ =~= old(acc)@ + ids_in_range(nodes, i + 1, nxt));
        }
        k = k + 1;
    }
}

/// Adds every descendant of the node with this id to the accumulator; an
/// unknown id leaves it untouched.
pub fn add_descendants(id: &str, idx: &TreeIndex, acc: &mut PathSet)
    requires
        wf(*idx),
        nodup(*old(acc)),
    ensures
        nodup(*final(acc)),
        !has_id(*idx, id@) ==> final(acc)@ == old(acc)@,
        has_id(*idx, id@) ==> exists|i: int|
            0 <= i < idx.nodes@.len() && (#[trigger] idx.nodes@[i].id@) == id@ && final(acc)@
                == old(acc)@ + ids_in_range(idx.nodes@, i + 1, sub_end(idx.nodes@, i)),
{
    match find_node(idx, id) {
        Some(i) => {
            proof {
                crate::tree_facts::lemma_wf_closed_at(*idx, i as int);
            }
            desc_from(idx, i, acc);
        },
        None => {
        },
    }
}

/// Concatenating id lists adds their counts.
pub proof fn lemma_count_concat(a: Seq<Seq<char>>, b: Seq<Seq<char>>, m: Set<Seq<char>>)
    ensures
        count_in(a + b, m) == count_in(a, m) + count_in(b, m),
    decreases a.len(),
{
    if a.len() == 0 {
        assert(a + b =~= b);
    } else {
        assert((a + b)[0] == a[0]);
        assert((a + b).subrange(1, (a + b).len() as int) =~= a.subrange(1, a.len() as int) + b);
        lemma_count_concat(a.subrange(1, a.len() as int), b, m);
    }
}

/// A count over a list stays between zero and the list's length.
pub proof fn lemma_count_bounds(ids: Seq<Seq<char>>, m: Set<Seq<char>>)
    ensures
        0 <= count_in(ids, m) <= ids.len(),
    decreases ids.len(),
{
    if ids.len() > 0 {
        lemma_count_bounds(ids.subrange(1, ids.len() as int), m);
    }
}

/// Counts the nodes of one result subtree whose ids are genuine matches.
fn count_node(n: &DirectoryNode, original_matches: &PathSet) -> (r: usize)
    requires
        flat_one_ids(*n).len() <= usize::MAX,
    ensures
        r == count_in(flat_one_ids(*n), original_matches@),
    decreases n,
{
    let ghost fo = flat_one_ids(*n);
    let ghost ch = n.children@;
    let mut total: usize = if original_matches.contains(n.id.as_str()) {
        1
    } else {
        0
    };
    proof {
        lemma_count_concat(seq![n.id@], flat_from(ch, 0), original_matches@);
        assert(seq![n.id@].subrange(1, 1) =~= Seq::<Seq<char>>::empty());
        assert(count_in(Seq::<Seq<char>>::empty(), original_matches@) == 0);
        assert(seq![n.id@][0] == n.id@);
        assert(count_in(seq![n.id@], original_matches@) == (if original_matches@.contains(n.id@) {
            1int
        } else {
            0int
        }));
        lemma_count_bounds(fo, original_matches@);
        lemma_count_bounds(flat_from(ch, 0), original_matches@);
        assert(total == count_in(fo, original_matches@) - count_in(
            flat_from(ch, 0),
            original_matches@,
        ));
    }
    let mut k: usize = 0;
    while k < n.children.len()
        invariant
            fo == flat_one_ids(*n),
            ch == n.children@,
            flat_one_ids(*n).len() <= usize::MAX,
            k <= ch.len(),
            flat_from(ch, k as int).len() <= fo.len(),
            total == count_in(fo, original_matches@) - count_in(
                flat_from(ch, k as int),
                original_matches@,
            ),
            count_in(fo, original_matches@) <= fo.len(),
        decreases ch.len() - k,
    {
        proof {
            assert(flat_from(ch, k as int) == flat_one_ids(ch[k as int]) + flat_from(
                ch,
                k + 1,
            ));
            lemma_count_concat(
                flat_one_ids(ch[k as int]),
                flat_from(ch, k + 1),
                original_matches@,
            );
            lemma_count_bounds(flat_one_ids(ch[k as int]), original_matches@);
            lemma_count_bounds(flat_from(ch, k + 1), original_matches@);
        }
        let rc = count_node(&n.children[k], original_matches);
        total = total + rc;
        k = k + 1;
    }
    total
}

/// Counts, over an already-projected forest, exactly the nodes that were
/// genuine matches: ancestors pulled in for context never inflate it.
pub fn count_matched_nodes(nodes: &Vec<DirectoryNode>, original_matches: &PathSet) -> (r: usize)
    requires
        flat_forest_ids(nodes@).len() <= usize::MAX,
    ensures
        r == count_in(flat_forest_ids(nodes@), original_matches@),
{
    let ghost fo = flat_forest_ids(nodes@);
    let mut total: usize = 0;
    proof {
        lemma_count_bounds(fo, original_matches@);
    }
    let mut k: usize = 0;
    while k < nodes.len()
        invariant
            fo == flat_forest_ids(nodes@),
            fo.len() <= usize::MAX,
            k <= nodes@.len(),
            flat_from(nodes@, k as int).len() <= fo.len(),
            total == count_in(fo, original_matches@) - count_in(
                flat_from(nodes@, k as int),
                original_matches@,
            ),
            count_in(fo, original_matches@) <= fo.len(),
        decreases nodes@.len() - k,
    {
        proof {
            assert(flat_from(nodes@, k as int) == flat_one_ids(nodes@[k as int]) + flat_from(
                nodes@,
                k + 1,
            ));
            lemma_count_concat(
                flat_one_ids(nodes@[k as int]),
                flat_from(nodes@, k + 1),
                original_matches@,
            );
            lemma_count_bounds(flat_one_ids(nodes@[k as int]), original_matches@);
            lemma_count_bounds(flat_from(nodes@, k + 1), original_matches@);
        }
        let rc = count_node(&nodes[k], original_matches);
        total = total + rc;
        k = k + 1;
    }
    total
}

/// A non-empty projection of a range contains a surviving position.
proof fn lemma_kept_survivor(nodes: Seq<NodeInfo>, lo: int, hi: int, keep: Set<Seq<char>>)
    requires
        kept_ids(nodes, lo, hi, keep).len() > 0,
    ensures
        exists|j: int| lo <= j < hi && survives(nodes, j, keep),
    decreases hi - lo,
{
    if lo < hi {
        if survives(nodes, lo, keep) {
            assert(lo <= lo < hi && survives(nodes, lo, keep));
        } else {
            lemma_kept_survivor(nodes, lo + 1, hi, keep);
        }
    }
}

/// Prunes the subtree rooted at the node with this id, if the id names a
/// node of the index at all.  With distinct ids the answer is pinned both
/// ways: the projection exists exactly when that node's subtree survives.
pub fn build_pruned_tree(id: &str, idx: &TreeIndex, keep: &PathSet) -> (r: Option<DirectoryNode>)
    requires
        wf(*idx),
    ensures
        !has_id(*idx, id@) ==> r is None,
        r matches Some(t) ==> exists|i: int|
            0 <= i < idx.nodes@.len() && (#[trigger] idx.nodes@[i].id@) == id@ && survives(
                idx.nodes@,
                i,
                keep@,
            ) && flat_one_ids(t) == kept_ids(idx.nodes@, i, sub_end(idx.nodes@, i), keep@)
                && pruned_mirrors(*idx, i, keep@, t),
        distinct_ids(*idx) ==> forall|i: int|
            0 <= i < idx.nodes@.len() && (#[trigger] idx.nodes@[i].id@) == id@ ==> (r is Some
                <==> survives(idx.nodes@, i, keep@)),
{
    match find_node(idx, id) {
        Some(i) => {
            proof {
                crate::tree_facts::lemma_wf_closed_at(*idx, i as int);
            }
            let r = pruned_from(idx, i, keep);
            proof {
                if r is Some {
                    let ii = i as int;
                    assert(0 <= ii < idx.nodes@.len() && idx.nodes@[ii].id@ == id@ && survives(
                        idx.nodes@,
                        ii,
                        keep@,
                    ) && flat_one_ids(r->0) == kept_ids(
                        idx.nodes@,
                        ii,
                        sub_end(idx.nodes@, ii),
                        keep@,
                    ) && pruned_mirrors(*idx, ii, keep@, r->0));
                }
                if distinct_ids(*idx) {
                    assert forall|j: int|
                        0 <= j < idx.nodes@.len() && (#[trigger] idx.nodes@[j].id@)
                            == id@ implies (r is Some <==> survives(idx.nodes@, j, keep@)) by {
                        crate::tree_facts::lemma_distinct_id_unique(*idx, j, i as int);
                    }
                }
            }
            r
        },
        None => None,
    }
}

} // verus!

