//! Structural facts about well-formed indexes: subtree ranges are bounded,
//! closedness survives growing or patching the store outside the subtree,
//! every position inside a range lies in exactly one child range, and every
//! position of a well-formed index roots a closed subtree.

use vstd::prelude::*;

use crate::model::{closed, distinct_ids, sub_end, wf, NodeInfo, NodeKind, TreeIndex};

verus! {

/// A closed subtree's range is non-empty and stays inside the store.
pub proof fn lemma_closed_end(nodes: Seq<NodeInfo>, i: int)
    requires
        closed(nodes, i),
    ensures
        i < sub_end(nodes, i) <= nodes.len(),
    decreases nodes.len() - i,
{
    let ch = nodes[i].children@;
    if ch.len() > 0 {
        let c = ch[ch.len() - 1] as int;
        assert(closed(nodes, c));
        lemma_closed_end(nodes, c);
    }
}

/// Closedness and the subtree range depend only on the entries from `i` on:
/// they survive any change that keeps `[i, len)` intact, including pushing
/// new entries past the end or patching an entry before `i`.
pub proof fn lemma_closed_stable(nodes1: Seq<NodeInfo>, nodes2: Seq<NodeInfo>, i: int)
    requires
        closed(nodes1, i),
        nodes1.len() <= nodes2.len(),
        forall|j: int| i <= j < nodes1.len() ==> nodes2[j] == #[trigger] nodes1[j],
    ensures
        closed(nodes2, i),
        sub_end(nodes2, i) == sub_end(nodes1, i),
    decreases nodes1.len() - i,
{
    let ch = nodes1[i].children@;
    assert(nodes2[i] == nodes1[i]);
    assert forall|k: int| 0 <= k < ch.len() implies i < #[trigger] (ch[k] as int) < nodes2.len()
        && nodes2[ch[k] as int].parent == Some(i as usize) && closed(nodes2, ch[k] as int) by {
        assert(closed(nodes1, ch[k] as int));
        lemma_closed_stable(nodes1, nodes2, ch[k] as int);
    }
    assert forall|k: int| 0 <= k < ch.len() - 1 implies #[trigger] (ch[k + 1] as int) == sub_end(
        nodes2,
        ch[k] as int,
    ) by {
        assert(closed(nodes1, ch[k] as int));
        lemma_closed_stable(nodes1, nodes2, ch[k] as int);
    }
    if ch.len() > 0 {
        let c = ch[ch.len() - 1] as int;
        assert(closed(nodes1, c));
        lemma_closed_stable(nodes1, nodes2, c);
    }
}

/// Each child's range sits strictly inside its parent's range.
pub proof fn lemma_child_range(nodes: Seq<NodeInfo>, i: int, k: int)
    requires
        closed(nodes, i),
        0 <= k < nodes[i].children@.len(),
    ensures
        i < nodes[i].children@[k] as int,
        (nodes[i].children@[k] as int) < sub_end(nodes, nodes[i].children@[k] as int),
        sub_end(nodes, nodes[i].children@[k] as int) <= sub_end(nodes, i),
    decreases nodes[i].children@.len() - k,
{
    let ch = nodes[i].children@;
    let c = ch[k] as int;
    assert(closed(nodes, c));
    lemma_closed_end(nodes, c);
    if k == ch.len() - 1 {
        assert(sub_end(nodes, i) == sub_end(nodes, c));
    } else {
        assert((ch[k + 1] as int) == sub_end(nodes, c));
        lemma_child_range(nodes, i, k + 1);
        assert(closed(nodes, ch[k + 1] as int));
        lemma_closed_end(nodes, ch[k + 1] as int);
    }
}

/// Any position strictly inside a closed subtree's range lies in the range
/// of one of its children, scanning the chain from child `k` on.
proof fn lemma_child_span_from(nodes: Seq<NodeInfo>, i: int, j: int, k: int)
    requires
        closed(nodes, i),
        0 <= k < nodes[i].children@.len(),
        nodes[i].children@[k] as int <= j < sub_end(nodes, i),
    ensures
        exists|k2: int|
            0 <= k2 < nodes[i].children@.len() && (#[trigger] nodes[i].children@[k2] as int) <= j
                < sub_end(nodes, nodes[i].children@[k2] as int),
    decreases nodes[i].children@.len() - k,
{
    let ch = nodes[i].children@;
    let c = ch[k] as int;
    assert(closed(nodes, c));
    if j < sub_end(nodes, c) {
        assert(0 <= k < ch.len() && (ch[k] as int) <= j < sub_end(nodes, ch[k] as int));
    } else {
        if k == ch.len() - 1 {
            assert(sub_end(nodes, i) == sub_end(nodes, c));
            assert(false);
        } else {
            assert((ch[k + 1] as int) == sub_end(nodes, c));
            lemma_child_span_from(nodes, i, j, k + 1);
        }
    }
}

/// Every position in a closed subtree's range roots a closed subtree whose
/// own range stays inside the enclosing one.
pub proof fn lemma_interior_closed(nodes: Seq<NodeInfo>, i: int, j: int)
    requires
        closed(nodes, i),
        i <= j < sub_end(nodes, i),
    ensures
        closed(nodes, j),
        sub_end(nodes, j) <= sub_end(nodes, i),
    decreases nodes.len() - i,
{
    lemma_closed_end(nodes, i);
    if j != i {
        let ch = nodes[i].children@;
        assert(ch.len() > 0);
        assert((ch[0] as int) == i + 1);
        lemma_child_span_from(nodes, i, j, 0);
        let k = choose|k: int|
            0 <= k < ch.len() && (#[trigger] ch[k] as int) <= j < sub_end(nodes, ch[k] as int);
        assert(closed(nodes, ch[k] as int));
        lemma_child_range(nodes, i, k);
        lemma_interior_closed(nodes, ch[k] as int, j);
    }
}

/// A position strictly inside a closed subtree's range has a parent link to
/// its structural parent: an earlier position in the same range whose child
/// list names it.
pub proof fn lemma_interior_parent(nodes: Seq<NodeInfo>, i: int, j: int)
    requires
        closed(nodes, i),
        i < j < sub_end(nodes, i),
    ensures
        nodes[j].parent matches Some(p) && i <= p < j && nodes[p as int].children@.contains(
            j as usize,
        ) && closed(nodes, p as int) && nodes[p as int].kind == NodeKind::Directory && exists|
            k: int,
        |
            0 <= k < nodes[p as int].children@.len() && (#[trigger] nodes[p as int].children@[k] as int)
                == j,
    decreases nodes.len() - i,
{
    lemma_closed_end(nodes, i);
    let ch = nodes[i].children@;
    assert(ch.len() > 0);
    assert((ch[0] as int) == i + 1);
    lemma_child_span_from(nodes, i, j, 0);
    let k = choose|k: int|
        0 <= k < ch.len() && (#[trigger] ch[k] as int) <= j < sub_end(nodes, ch[k] as int);
    let c = ch[k] as int;
    assert(closed(nodes, c));
    if j == c {
        assert(nodes[j].parent == Some(i as usize));
        assert(ch[k] == j as usize);
        assert(nodes[i].children@.contains(j as usize));
        assert(nodes[i].kind != NodeKind::File);
        assert(0 <= k < nodes[i].children@.len() && (nodes[i].children@[k] as int) == j);
    } else {
        lemma_interior_parent(nodes, c, j);
    }
}

/// Every position of a well-formed index lies in the range of one of the
/// top-level subtrees, scanning the top-level chain from entry `k` on.
proof fn lemma_top_span_from(idx: TreeIndex, j: int, k: int)
    requires
        wf(idx),
        0 <= k < idx.top_level@.len(),
        idx.top_level@[k] as int <= j < idx.nodes@.len(),
    ensures
        exists|k2: int|
            0 <= k2 < idx.top_level@.len() && (#[trigger] idx.top_level@[k2] as int) <= j
                < sub_end(idx.nodes@, idx.top_level@[k2] as int),
    decreases idx.top_level@.len() - k,
{
    let tops = idx.top_level@;
    let t = tops[k] as int;
    assert(closed(idx.nodes@, t));
    if j < sub_end(idx.nodes@, t) {
        assert(0 <= k < tops.len() && (tops[k] as int) <= j < sub_end(idx.nodes@, tops[k] as int));
    } else {
        if k == tops.len() - 1 {
            assert(sub_end(idx.nodes@, tops[tops.len() - 1] as int) == idx.nodes@.len());
            assert(false);
        } else {
            assert((tops[k + 1] as int) == sub_end(idx.nodes@, tops[k] as int));
            lemma_top_span_from(idx, j, k + 1);
        }
    }
}

/// In a well-formed index every position roots a closed subtree, and every
/// position belongs to some top-level range.
pub proof fn lemma_wf_closed_at(idx: TreeIndex, j: int)
    requires
        wf(idx),
        0 <= j < idx.nodes@.len(),
    ensures
        closed(idx.nodes@, j),
        exists|k: int|
            0 <= k < idx.top_level@.len() && (#[trigger] idx.top_level@[k] as int) <= j < sub_end(
                idx.nodes@,
                idx.top_level@[k] as int,
            ),
{
    let tops = idx.top_level@;
    assert(tops.len() > 0);
    assert((tops[0] as int) == 0);
    lemma_top_span_from(idx, j, 0);
    let k = choose|k: int|
        0 <= k < tops.len() && (#[trigger] tops[k] as int) <= j < sub_end(
            idx.nodes@,
            tops[k] as int,
        );
    assert(closed(idx.nodes@, tops[k] as int));
    lemma_interior_closed(idx.nodes@, tops[k] as int, j);
}

/// In a well-formed index, a node's parent link, when present, points to an
/// earlier directory node whose child list names it; when absent, the node
/// is one of the top-level entries.
pub proof fn lemma_wf_parent(idx: TreeIndex, j: int)
    requires
        wf(idx),
        0 <= j < idx.nodes@.len(),
    ensures
        idx.nodes@[j].parent matches Some(p) ==> (p as int) < j && idx.nodes@[p as int].children@.contains(
            j as usize,
        ) && closed(idx.nodes@, p as int) && idx.nodes@[p as int].kind == NodeKind::Directory
            && exists|k: int|
            0 <= k < idx.nodes@[p as int].children@.len() && (#[trigger] idx.nodes@[
                p as int
            ].children@[k] as int) == j,
        idx.nodes@[j].parent is None ==> idx.top_level@.contains(j as usize),
{
    let tops = idx.top_level@;
    let nodes = idx.nodes@;
    lemma_wf_closed_at(idx, j);
    let k = choose|k: int|
        0 <= k < tops.len() && (#[trigger] tops[k] as int) <= j < sub_end(nodes, tops[k] as int);
    let t = tops[k] as int;
    if j == t {
        assert(nodes[j].parent is None);
        assert(tops.contains(j as usize)) by {
            assert(tops[k] == j as usize);
        }
    } else {
        assert(closed(nodes, t));
        lemma_interior_parent(nodes, t, j);
    }
}

/// In an index with distinct identifiers, positions are recoverable from
/// ids: two positions with equal id strings are the same position.
pub proof fn lemma_distinct_id_unique(idx: TreeIndex, i: int, j: int)
    requires
        distinct_ids(idx),
        0 <= i < idx.nodes@.len(),
        0 <= j < idx.nodes@.len(),
        idx.nodes@[i].id@ == idx.nodes@[j].id@,
    ensures
        i == j,
{
}

} // verus!
