//! Building the flat index from a nested directory listing, and the
//! process-wide cache of one index per root.
//!
//! The builder flattens the nested tree depth-first, so the resulting store
//! is in preorder: every subtree occupies a contiguous range.  A file node
//! never contributes children, which keeps the model's invariant that files
//! are leaves even on malformed input.

use vstd::prelude::*;

use crate::model::{closed, sub_end, wf, DirectoryNode, NodeInfo, NodeKind, TreeIndex};
use crate::strutil::{lower_of, lower_str, trim_str, trimmed_of};
use crate::tree_facts::lemma_closed_stable;
use crate::ApplicationError;

verus! {

/// The title table runs parallel to the node store: entry `i` names node
/// `i` and holds the lowercased, trimmed form of its title.
pub open spec fn titles_ok(nodes: Seq<NodeInfo>, titles: Seq<(usize, String)>) -> bool {
    &&& titles.len() == nodes.len()
    &&& (forall|i: int| 0 <= i < titles.len() ==> (#[trigger] titles[i].0 as int) == i)
    &&& (forall|i: int|
        0 <= i < titles.len() ==> (#[trigger] titles[i].1@) == lower_of(
            trimmed_of(nodes[i].title@),
        ))
}

/// The (id, title, kind) triples of the store positions in `[lo, hi)`.
pub open spec fn entries_of(nodes: Seq<NodeInfo>, lo: int, hi: int) -> Seq<
    (Seq<char>, Seq<char>, NodeKind),
> {
    Seq::new(
        if lo <= hi {
            (hi - lo) as nat
        } else {
            0
        },
        |t: int| (nodes[lo + t].id@, nodes[lo + t].title@, nodes[lo + t].kind),
    )
}

/// The depth-first preorder triples of one nested node: itself, then (for
/// a directory) its children's; a file contributes no children even when
/// the input carries some, matching what the builder stores.
pub open spec fn pre_entries_one(n: DirectoryNode) -> Seq<(Seq<char>, Seq<char>, NodeKind)>
    decreases n, 0int,
{
    seq![(n.id@, n.title@, n.kind)] + (if n.kind == NodeKind::Directory {
        pre_entries_from(n.children@, 0)
    } else {
        Seq::empty()
    })
}

/// The preorder triples of the forest from sibling `k` on.
pub open spec fn pre_entries_from(s: Seq<DirectoryNode>, k: int) -> Seq<
    (Seq<char>, Seq<char>, NodeKind),
>
    decreases s, s.len() - k,
{
    if 0 <= k < s.len() {
        pre_entries_one(s[k]) + pre_entries_from(s, k + 1)
    } else {
        Seq::empty()
    }
}

/// The preorder triples of the first `k` siblings.
pub open spec fn pre_entries_upto(s: Seq<DirectoryNode>, k: int) -> Seq<
    (Seq<char>, Seq<char>, NodeKind),
>
    decreases k,
{
    if k <= 0 {
        Seq::empty()
    } else {
        pre_entries_upto(s, k - 1) + pre_entries_one(s[k - 1])
    }
}

/// The first `k` siblings' triples followed by the rest are the forest's.
proof fn lemma_pre_entries_split(s: Seq<DirectoryNode>, k: int)
    requires
        0 <= k <= s.len(),
    ensures
        pre_entries_upto(s, k) + pre_entries_from(s, k) == pre_entries_from(s, 0),
    decreases k,
{
    if k == 0 {
        assert(pre_entries_upto(s, 0) + pre_entries_from(s, 0) =~= pre_entries_from(s, 0));
    } else {
        lemma_pre_entries_split(s, k - 1);
        assert(pre_entries_from(s, k - 1) == pre_entries_one(s[k - 1]) + pre_entries_from(s, k));
        assert(pre_entries_upto(s, k) + pre_entries_from(s, k) =~= pre_entries_upto(s, k - 1)
            + pre_entries_from(s, k - 1));
    }
}

/// The store's subtree at position `i` has exactly the nested node's
/// structure: same id, title and kind, and (for a directory) one stored
/// child per input child, in order, each matching recursively.  A file
/// stores no children even when the input carries some.
pub open spec fn listing_shape(nodes: Seq<NodeInfo>, i: int, n: DirectoryNode) -> bool
    decreases n, 0int,
{
    &&& 0 <= i < nodes.len()
    &&& nodes[i].id@ == n.id@
    &&& nodes[i].title@ == n.title@
    &&& nodes[i].kind == n.kind
    &&& if n.kind == NodeKind::Directory {
        nodes[i].children@.len() == n.children@.len() && (forall|k: int|
            0 <= k < n.children@.len() ==> listing_shape(
                nodes,
                nodes[i].children@[k] as int,
                #[trigger] n.children@[k],
            ))
    } else {
        nodes[i].children@.len() == 0
    }
}

/// Like closedness, the stored structure of a subtree depends only on the
/// entries from `i` on, provided the subtree is closed there.
proof fn lemma_listing_shape_stable(
    nodes1: Seq<NodeInfo>,
    nodes2: Seq<NodeInfo>,
    i: int,
    n: DirectoryNode,
)
    requires
        closed(nodes1, i),
        listing_shape(nodes1, i, n),
        nodes1.len() <= nodes2.len(),
        forall|j: int| i <= j < nodes1.len() ==> nodes2[j] == #[trigger] nodes1[j],
    ensures
        listing_shape(nodes2, i, n),
    decreases n, 0int,
{
    assert(nodes2[i] == nodes1[i]);
    if n.kind == NodeKind::Directory {
        assert forall|k: int| 0 <= k < n.children@.len() implies listing_shape(
            nodes2,
            nodes1[i].children@[k] as int,
            #[trigger] n.children@[k],
        ) by {
            let c = nodes1[i].children@[k] as int;
            assert(closed(nodes1, c));
            lemma_listing_shape_stable(nodes1, nodes2, c, n.children@[k]);
        }
    }
}

/// Flattens one nested node (and, for directories, its children) onto the
/// end of the store, returning with the new region forming a closed subtree
/// whose triples are exactly the node's preorder flattening.
fn index_node(
    node: &DirectoryNode,
    parent_of: Option<usize>,
    nodes: &mut Vec<NodeInfo>,
    titles: &mut Vec<(usize, String)>,
)
    requires
        titles_ok(old(nodes)@, old(titles)@),
    ensures
        final(nodes)@.len() > old(nodes)@.len(),
        titles_ok(final(nodes)@, final(titles)@),
        final(nodes)@.subrange(0, old(nodes)@.len() as int) == old(nodes)@,
        closed(final(nodes)@, old(nodes)@.len() as int),
        sub_end(final(nodes)@, old(nodes)@.len() as int) == final(nodes)@.len() as int,
        final(nodes)@[old(nodes)@.len() as int].parent == parent_of,
        final(nodes)@[old(nodes)@.len() as int].id@ == node.id@,
        final(nodes)@[old(nodes)@.len() as int].kind == node.kind,
        entries_of(final(nodes)@, old(nodes)@.len() as int, final(nodes)@.len() as int)
            == pre_entries_one(*node),
        listing_shape(final(nodes)@, old(nodes)@.len() as int, *node),
    decreases node,
{
    let me = nodes.len();
    nodes.push(
        NodeInfo {
            id: node.id.clone(),
            title: node.title.clone(),
            kind: node.kind,
            parent: parent_of,
            children: Vec::new(),
        },
    );
    titles.push((me, lower_str(trim_str(node.title.as_str()))));
    proof {
        assert(entries_of(nodes@, me + 1, nodes@.len() as int) =~= pre_entries_upto(
            node.children@,
            0,
        ));
    }
    let mut child_idxs: Vec<usize> = Vec::new();
    let is_dir = matches!(node.kind, NodeKind::Directory);
    let mut k: usize = 0;
    while is_dir && k < node.children.len()
        invariant
            titles_ok(nodes@, titles@),
            me == old(nodes)@.len(),
            me < nodes@.len(),
            nodes@.subrange(0, me as int) == old(nodes)@,
            nodes@[me as int].parent == parent_of,
            nodes@[me as int].kind == node.kind,
            nodes@[me as int].id@ == node.id@,
            nodes@[me as int].title@ == node.title@,
            is_dir == (node.kind == NodeKind::Directory),
            k > 0 ==> is_dir,
            k <= node.children@.len(),
            child_idxs@.len() == k,
            k == 0 ==> nodes@.len() == me + 1,
            k > 0 ==> (child_idxs@[0] as int) == me + 1,
            k > 0 ==> sub_end(nodes@, child_idxs@[k - 1] as int) == nodes@.len() as int,
            forall|t: int|
                0 <= t < k - 1 ==> (#[trigger] child_idxs@[t + 1] as int) == sub_end(
                    nodes@,
                    child_idxs@[t] as int,
                ),
            forall|t: int|
                0 <= t < k ==> me < (#[trigger] child_idxs@[t] as int) < nodes@.len() && nodes@[
                    child_idxs@[t] as int
                ].parent == Some(me) && closed(nodes@, child_idxs@[t] as int),
            forall|t: int|
                0 <= t < k ==> listing_shape(
                    nodes@,
                    child_idxs@[t] as int,
                    #[trigger] node.children@[t],
                ),
            entries_of(nodes@, me + 1, nodes@.len() as int) == pre_entries_upto(
                node.children@,
                k as int,
            ),
        decreases node.children@.len() - k,
    {
        let ci = nodes.len();
        child_idxs.push(ci);
        let ghost prev = nodes@;
        index_node(&node.children[k], Some(me), nodes, titles);
        proof {
            assert(nodes@.subrange(0, prev.len() as int) == prev);
            assert forall|j: int| 0 <= j < prev.len() implies nodes@[j] == #[trigger] prev[j] by {
                assert(nodes@.subrange(0, prev.len() as int)[j] == nodes@[j]);
            }
            assert(nodes@.subrange(0, me as int) =~= prev.subrange(0, me as int));
            assert forall|t: int|
                0 <= t < k implies me < (#[trigger] child_idxs@[t] as int) < nodes@.len()
                && nodes@[child_idxs@[t] as int].parent == Some(me) && closed(
                nodes@,
                child_idxs@[t] as int,
            ) by {
                lemma_closed_stable(prev, nodes@, child_idxs@[t] as int);
            }
            assert forall|t: int|
                0 <= t < k - 1 implies (#[trigger] child_idxs@[t + 1] as int) == sub_end(
                nodes@,
                child_idxs@[t] as int,
            ) by {
                lemma_closed_stable(prev, nodes@, child_idxs@[t] as int);
            }
            if k > 0 {
                lemma_closed_stable(prev, nodes@, child_idxs@[k - 1] as int);
                assert(sub_end(nodes@, child_idxs@[k - 1] as int) == ci as int);
            }
            assert forall|t: int| 0 <= t < k implies listing_shape(
                nodes@,
                child_idxs@[t] as int,
                #[trigger] node.children@[t],
            ) by {
                assert(closed(prev, child_idxs@[t] as int));
                lemma_listing_shape_stable(
                    prev,
                    nodes@,
                    child_idxs@[t] as int,
                    node.children@[t],
                );
            }
            assert(entries_of(nodes@, me + 1, ci as int) =~= entries_of(
                prev,
                me + 1,
                ci as int,
            ));
            assert(entries_of(nodes@, me + 1, nodes@.len() as int) =~= entries_of(
                nodes@,
                me + 1,
                ci as int,
            ) + entries_of(nodes@, ci as int, nodes@.len() as int));
            assert(entries_of(nodes@, me + 1, nodes@.len() as int) =~= pre_entries_upto(
                node.children@,
                k + 1,
            ));
        }
        k = k + 1;
    }
    let info = NodeInfo {
        id: node.id.clone(),
        title: node.title.clone(),
        kind: node.kind,
        parent: parent_of,
        children: child_idxs,
    };
    let ghost prepatch = nodes@;
    nodes[me] = info;
    proof {
        assert(nodes@ =~= prepatch.update(me as int, info));
        assert(nodes@.subrange(0, me as int) =~= prepatch.subrange(0, me as int));
        let ch = nodes@[me as int].children@;
        assert forall|t: int|
            0 <= t < ch.len() implies me < (#[trigger] ch[t] as int) < nodes@.len() && nodes@[
            ch[t] as int
        ].parent == Some(me) && closed(nodes@, ch[t] as int) && sub_end(nodes@, ch[t] as int)
            == sub_end(prepatch, ch[t] as int) by {
            lemma_closed_stable(prepatch, nodes@, ch[t] as int);
        }
        assert forall|t: int|
            0 <= t < ch.len() - 1 implies (#[trigger] ch[t + 1] as int) == sub_end(
            nodes@,
            ch[t] as int,
        ) by {
            lemma_closed_stable(prepatch, nodes@, ch[t] as int);
        }
        assert(closed(nodes@, me as int));
        if ch.len() > 0 {
            assert(sub_end(nodes@, me as int) == sub_end(nodes@, ch[ch.len() - 1] as int));
            assert(sub_end(nodes@, me as int) == nodes@.len() as int);
        } else {
            assert(sub_end(nodes@, me as int) == me + 1);
        }
        assert(entries_of(nodes@, me + 1, nodes@.len() as int) =~= entries_of(
            prepatch,
            me + 1,
            prepatch.len() as int,
        ));
        if is_dir {
            lemma_pre_entries_split(node.children@, node.children@.len() as int);
            assert(pre_entries_upto(node.children@, node.children@.len() as int)
                == pre_entries_from(node.children@, 0));
        } else {
            assert(entries_of(nodes@, me + 1, nodes@.len() as int) =~= Seq::<
                (Seq<char>, Seq<char>, NodeKind),
            >::empty());
        }
        assert(entries_of(nodes@, me as int, nodes@.len() as int) =~= pre_entries_one(*node));
        assert forall|t: int| 0 <= t < ch.len() implies listing_shape(
            nodes@,
            ch[t] as int,
            #[trigger] node.children@[t],
        ) by {
            assert(closed(prepatch, ch[t] as int));
            lemma_listing_shape_stable(prepatch, nodes@, ch[t] as int, node.children@[t]);
        }
        assert(listing_shape(nodes@, me as int, *node));
    }
}

/// A built index corresponds to its listing: well formed, the title table
/// derived from the store, one top-level entry per input root in order,
/// the whole store the depth-first preorder flattening of the listing, and
/// each root's range exactly its own subtree's flattening.
pub open spec fn index_of_listing(idx: TreeIndex, forest: Seq<DirectoryNode>) -> bool {
    &&& wf(idx)
    &&& titles_ok(idx.nodes@, idx.titles@)
    &&& idx.top_level@.len() == forest.len()
    &&& entries_of(idx.nodes@, 0, idx.nodes@.len() as int) == pre_entries_from(forest, 0)
    &&& (forall|k: int|
        0 <= k < forest.len() ==> entries_of(
            idx.nodes@,
            #[trigger] idx.top_level@[k] as int,
            sub_end(idx.nodes@, idx.top_level@[k] as int),
        ) == pre_entries_one(forest[k]))
    &&& (forall|k: int|
        0 <= k < forest.len() ==> listing_shape(
            idx.nodes@,
            idx.top_level@[k] as int,
            #[trigger] forest[k],
        ))
}

/// Builds the flat index for a whole listing: each top-level node is
/// flattened in turn, so the top-level ranges tile the store in order and
/// the store is the listing's preorder flattening.
pub fn build_index(full_tree: Vec<DirectoryNode>) -> (idx: TreeIndex)
    ensures
        wf(idx),
        titles_ok(idx.nodes@, idx.titles@),
        index_of_listing(idx, full_tree@),
{
    let mut nodes: Vec<NodeInfo> = Vec::new();
    let mut titles: Vec<(usize, String)> = Vec::new();
    let mut tops: Vec<usize> = Vec::new();
    let mut r: usize = 0;
    while r < full_tree.len()
        invariant
            titles_ok(nodes@, titles@),
            r <= full_tree@.len(),
            tops@.len() == r,
            r == 0 ==> nodes@.len() == 0,
            r > 0 ==> (tops@[0] as int) == 0,
            r > 0 ==> sub_end(nodes@, tops@[r - 1] as int) == nodes@.len() as int,
            forall|t: int|
                0 <= t < r - 1 ==> (#[trigger] tops@[t + 1] as int) == sub_end(
                    nodes@,
                    tops@[t] as int,
                ),
            forall|t: int|
                0 <= t < r ==> (#[trigger] tops@[t] as int) < nodes@.len() && nodes@[
                    tops@[t] as int
                ].parent is None && closed(nodes@, tops@[t] as int),
            entries_of(nodes@, 0, nodes@.len() as int) == pre_entries_upto(
                full_tree@,
                r as int,
            ),
            forall|t: int|
                0 <= t < r ==> entries_of(
                    nodes@,
                    #[trigger] tops@[t] as int,
                    sub_end(nodes@, tops@[t] as int),
                ) == pre_entries_one(full_tree@[t]),
            forall|t: int|
                0 <= t < r ==> listing_shape(
                    nodes@,
                    tops@[t] as int,
                    #[trigger] full_tree@[t],
                ),
        decreases full_tree@.len() - r,
    {
        tops.push(nodes.len());
        let ghost prev = nodes@;
        index_node(&full_tree[r], None, &mut nodes, &mut titles);
        proof {
            assert(nodes@.subrange(0, prev.len() as int) == prev);
            assert forall|j: int| 0 <= j < prev.len() implies nodes@[j] == #[trigger] prev[j] by {
                assert(nodes@.subrange(0, prev.len() as int)[j] == nodes@[j]);
            }
            assert forall|t: int|
                0 <= t < r implies (#[trigger] tops@[t] as int) < nodes@.len() && nodes@[
                tops@[t] as int
            ].parent is None && closed(nodes@, tops@[t] as int) by {
                lemma_closed_stable(prev, nodes@, tops@[t] as int);
            }
            assert forall|t: int|
                0 <= t < r - 1 implies (#[trigger] tops@[t + 1] as int) == sub_end(
                nodes@,
                tops@[t] as int,
            ) by {
                lemma_closed_stable(prev, nodes@, tops@[t] as int);
            }
            if r > 0 {
                lemma_closed_stable(prev, nodes@, tops@[r - 1] as int);
            }
            assert(entries_of(nodes@, 0, prev.len() as int) =~= entries_of(
                prev,
                0,
                prev.len() as int,
            ));
            assert(entries_of(nodes@, 0, nodes@.len() as int) =~= entries_of(
                nodes@,
                0,
                prev.len() as int,
            ) + entries_of(nodes@, prev.len() as int, nodes@.len() as int));
            assert(entries_of(nodes@, 0, nodes@.len() as int) =~= pre_entries_upto(
                full_tree@,
                r + 1,
            ));
            assert forall|t: int| 0 <= t < r implies listing_shape(
                nodes@,
                tops@[t] as int,
                #[trigger] full_tree@[t],
            ) by {
                assert(closed(prev, tops@[t] as int));
                lemma_listing_shape_stable(prev, nodes@, tops@[t] as int, full_tree@[t]);
            }
            assert forall|t: int|
                0 <= t < r + 1 implies entries_of(
                nodes@,
                #[trigger] tops@[t] as int,
                sub_end(nodes@, tops@[t] as int),
            ) == pre_entries_one(full_tree@[t]) by {
                if t < r {
                    lemma_closed_stable(prev, nodes@, tops@[t] as int);
                    crate::tree_facts::lemma_closed_end(prev, tops@[t] as int);
                    let lo = tops@[t] as int;
                    let hi = sub_end(prev, lo);
                    assert forall|x: int| 0 <= x < hi - lo implies #[trigger] nodes@[lo + x]
                        == prev[lo + x] by {
                        assert(nodes@.subrange(0, prev.len() as int)[lo + x] == nodes@[lo + x]);
                    }
                    assert(entries_of(nodes@, lo, sub_end(nodes@, lo)) =~= entries_of(
                        prev,
                        lo,
                        hi,
                    ));
                }
            }
        }
        r = r + 1;
    }
    proof {
        lemma_pre_entries_split(full_tree@, full_tree@.len() as int);
        assert(pre_entries_upto(full_tree@, full_tree@.len() as int) == pre_entries_from(
            full_tree@,
            0,
        ));
    }
    TreeIndex { top_level: tops, nodes, titles }
}

/// The process-wide cache of built indexes, one per root path.  The caller
/// owns it and guards it with whatever locking the application uses.
pub struct IndexCache {
    pub entries: Vec<(String, TreeIndex)>,
}

/// Every index the cache holds is well formed, and no two entries share a
/// root: the entry for a root is unique.
pub open spec fn cache_wf(c: IndexCache) -> bool {
    &&& (forall|k: int| 0 <= k < c.entries@.len() ==> wf(#[trigger] c.entries@[k].1))
    &&& (forall|k1: int, k2: int|
        0 <= k1 < k2 < c.entries@.len() ==> (#[trigger] c.entries@[k1].0@) != (
        #[trigger] c.entries@[k2].0@))
}

/// The cache holds an index for this root.
pub open spec fn has_root(c: IndexCache, root: Seq<char>) -> bool {
    exists|k: int| 0 <= k < c.entries@.len() && (#[trigger] c.entries@[k].0@) == root
}

impl IndexCache {
    /// An empty cache: no root is indexed yet.
    pub fn new() -> (c: IndexCache)
        ensures
            c.entries@.len() == 0,
            cache_wf(c),
    {
        IndexCache { entries: Vec::new() }
    }

    /// The position of the entry for `root`, if one exists.
    fn find(&self, root: &str) -> (r: Option<usize>)
        ensures
            match r {
                Some(k) => (k as int) < self.entries@.len() && self.entries@[k as int].0@ == root@,
                None => !has_root(*self, root@),
            },
    {
        let mut k: usize = 0;
        while k < self.entries.len()
            invariant
                k <= self.entries@.len(),
                forall|t: int| 0 <= t < k ==> (#[trigger] self.entries@[t].0@) != root@,
            decreases self.entries@.len() - k,
        {
            if crate::strutil::str_eq(self.entries[k].0.as_str(), root) {
                return Some(k);
            }
            k = k + 1;
        }
        None
    }

    /// A borrowed view of the index stored under `root`, if any: the very
    /// index that was cached for that root.
    pub fn get_index(&self, root: &str) -> (r: Option<&TreeIndex>)
        ensures
            match r {
                Some(idx) => has_root(*self, root@) && (exists|k: int|
                    0 <= k < self.entries@.len() && (#[trigger] self.entries@[k].0@) == root@
                        && *idx == self.entries@[k].1) && (cache_wf(*self) ==> wf(*idx)),
                None => !has_root(*self, root@),
            },
    {
        match self.find(root) {
            Some(k) => {
                proof {
                    let ki = k as int;
                    assert(0 <= ki < self.entries@.len() && self.entries@[ki].0@ == root@
                        && self.entries@[ki].1 == self.entries@[ki].1);
                }
                Some(&self.entries[k].1)
            },
            None => None,
        }
    }

    /// Ensures an index exists for `root`.  A cache hit returns at once and
    /// changes nothing; otherwise the supplied listing is flattened and
    /// cached, and only a failed listing is reported as an error, with no
    /// partial index stored.
    pub fn ensure_index(
        &mut self,
        root: &str,
        listing: Result<Vec<DirectoryNode>, ApplicationError>,
    ) -> (r: Result<(), ApplicationError>)
        requires
            cache_wf(*old(self)),
        ensures
            cache_wf(*final(self)),
            has_root(*old(self), root@) ==> *final(self) == *old(self) && r is Ok,
            !has_root(*old(self), root@) && listing is Ok ==> r is Ok && has_root(
                *final(self),
                root@,
            ) && final(self).entries@.len() == old(self).entries@.len() + 1
                && final(self).entries@.subrange(0, old(self).entries@.len() as int)
                == old(self).entries@ && final(self).entries@.last().0@ == root@
                && index_of_listing(final(self).entries@.last().1, listing->Ok_0@),
            !has_root(*old(self), root@) && listing is Err ==> *final(self) == *old(self) && r
                == Result::<(), ApplicationError>::Err(listing->Err_0),
    {
        if self.find(root).is_some() {
            return Ok(());
        }
        match listing {
            Ok(tree) => {
                let idx = build_index(tree);
                let key: String = root.to_owned();
                self.entries.push((key, idx));
                proof {
                    assert(self.entries@[old(self).entries@.len() as int].0@ == root@);
                    assert forall|k: int| 0 <= k < self.entries@.len() implies wf(
                        #[trigger] self.entries@[k].1,
                    ) by {
                        if k < old(self).entries@.len() {
                            assert(self.entries@[k] == old(self).entries@[k]);
                        }
                    }
                    assert(self.entries@.subrange(0, old(self).entries@.len() as int) =~= old(
                        self,
                    ).entries@);
                }
                Ok(())
            },
            Err(e) => Err(e),
        }
    }
}

} // verus!
