//! The search engine: substring matching over the title index, expansion
//! of the matches to a keep-set (matches, their ancestors, and the full
//! contents of matched directories), and the pruned projection with a
//! precise count of genuine hits.

use vstd::prelude::*;

use crate::model::{closed, distinct_ids, sub_end, wf, NodeInfo, NodeKind, SearchMatch, TreeIndex};
use crate::paths::{nodup, PathSet};
use crate::projection::{
    add_ancestors, add_descendants, anc_ids, build_full_tree, count_in, count_matched_nodes,
    flat_forest_ids, ids_in_range, kept_ids, lemma_kept_concat, survives,
};
use crate::strutil::{lower_of, lower_str, spec_contains, trim_str, trimmed_of};
use crate::tree_facts::{
    lemma_closed_end, lemma_distinct_id_unique, lemma_interior_closed, lemma_interior_parent,
    lemma_wf_closed_at, lemma_wf_parent,
};

verus! {

/// The normalized query: the term trimmed and lowercased, an absent term
/// counting as empty.
pub open spec fn query_of(term: Option<String>) -> Seq<char> {
    match term {
        Option::Some(t) => lower_of(trimmed_of(t@)),
        Option::None => lower_of(trimmed_of(Seq::empty())),
    }
}

/// Position `i` is a genuine substring hit for the query.
pub open spec fn is_match(idx: TreeIndex, q: Seq<char>, i: int) -> bool {
    0 <= i < idx.nodes@.len() && spec_contains(idx.titles@[i].1@, q)
}

/// The ids of the genuine hits.
pub open spec fn match_set(idx: TreeIndex, q: Seq<char>) -> Set<Seq<char>> {
    Set::new(
        |p: Seq<char>| exists|i: int| is_match(idx, q, i) && (#[trigger] idx.nodes@[i].id@) == p,
    )
}

/// Position `x` roots a subtree that strictly contains position `y`.
pub open spec fn is_anc(nodes: Seq<NodeInfo>, x: int, y: int) -> bool {
    0 <= x < y < nodes.len() && y < sub_end(nodes, x)
}

/// The ids of all ancestors of genuine hits.
pub open spec fn anc_of_matches(idx: TreeIndex, q: Seq<char>) -> Set<Seq<char>> {
    Set::new(
        |p: Seq<char>|
            exists|x: int, m: int|
                #![trigger is_anc(idx.nodes@, x, m)]
                is_match(idx, q, m) && is_anc(idx.nodes@, x, m) && idx.nodes@[x].id@ == p,
    )
}

/// The ids of everything below a matched directory.
pub open spec fn desc_of_dir_matches(idx: TreeIndex, q: Seq<char>) -> Set<Seq<char>> {
    Set::new(
        |p: Seq<char>|
            exists|m: int|
                is_match(idx, q, m) && idx.nodes@[m].kind == NodeKind::Directory && ids_in_range(
                    idx.nodes@,
                    m + 1,
                    sub_end(idx.nodes@, m),
                ).contains(p),
    )
}

/// The keep-set of a search: hits, their ancestor paths, and the full
/// contents of matched directories.
pub open spec fn keep_set(idx: TreeIndex, q: Seq<char>) -> Set<Seq<char>> {
    match_set(idx, q) + anc_of_matches(idx, q) + desc_of_dir_matches(idx, q)
}

/// The ancestor-id set of `y` is exactly the set of ids of the positions
/// whose subtree range strictly contains `y`.
pub proof fn lemma_anc_char(idx: TreeIndex, y: int)
    requires
        wf(idx),
        0 <= y < idx.nodes@.len(),
    ensures
        anc_ids(idx.nodes@, y) == Set::new(
            |p: Seq<char>|
                exists|x: int| is_anc(idx.nodes@, x, y) && (#[trigger] idx.nodes@[x].id@) == p,
        ),
    decreases y,
{
    let nodes = idx.nodes@;
    let rhs = Set::new(
        |p: Seq<char>| exists|x: int| is_anc(nodes, x, y) && (#[trigger] nodes[x].id@) == p,
    );
    lemma_wf_parent(idx, y);
    match nodes[y].parent {
        Option::None => {
            assert forall|p: Seq<char>| rhs.contains(p) implies false by {
                let x = choose|x: int| is_anc(nodes, x, y) && (#[trigger] nodes[x].id@) == p;
                lemma_wf_closed_at(idx, x);
                lemma_interior_parent(nodes, x, y);
            }
            assert(anc_ids(nodes, y) =~= rhs);
        },
        Option::Some(p0) => {
            let p = p0 as int;
            lemma_wf_closed_at(idx, p);
            lemma_closed_end(nodes, p);
            lemma_anc_char(idx, p);
            let ch = nodes[p].children@;
            let k = choose|k: int| 0 <= k < ch.len() && (#[trigger] ch[k] as int) == y;
            crate::tree_facts::lemma_child_range(nodes, p, k);
            lemma_wf_closed_at(idx, y);
            lemma_closed_end(nodes, y);
            assert(is_anc(nodes, p, y));
            assert forall|q: Seq<char>| anc_ids(nodes, y).contains(q) implies rhs.contains(q) by {
                if q == nodes[p].id@ {
                    assert(is_anc(nodes, p, y) && nodes[p].id@ == q);
                } else {
                    assert(anc_ids(nodes, p).contains(q));
                    let x = choose|x: int| is_anc(nodes, x, p) && (#[trigger] nodes[x].id@) == q;
                    lemma_wf_closed_at(idx, x);
                    lemma_interior_closed(nodes, x, p);
                    assert(is_anc(nodes, x, y));
                }
            }
            assert forall|q: Seq<char>| rhs.contains(q) implies anc_ids(nodes, y).contains(q) by {
                let x = choose|x: int| is_anc(nodes, x, y) && (#[trigger] nodes[x].id@) == q;
                if x == p {
                    assert(anc_ids(nodes, y).contains(nodes[p].id@));
                } else if x < p {
                    lemma_wf_closed_at(idx, x);
                    assert(is_anc(nodes, x, p));
                    assert(anc_ids(nodes, p).contains(q));
                } else {
                    lemma_wf_closed_at(idx, x);
                    lemma_interior_parent(nodes, x, y);
                }
            }
            assert(anc_ids(nodes, y) =~= rhs);
        },
    }
}

/// Runs a search over a built index.  An empty (or whitespace-only) query
/// projects the full forest and counts every node; a non-empty query
/// projects the keep-set expansion of the substring hits and counts only
/// the genuine hits that appear in the projection.
pub fn load_tree(idx: &TreeIndex, term: Option<String>) -> (r: SearchMatch)
    requires
        wf(*idx),
    ensures
        query_of(term).len() == 0 ==> r.matched_ids_count == idx.nodes@.len()
            && flat_forest_ids(r.results@) == crate::projection::all_ids(
            idx.nodes@,
            0,
            idx.nodes@.len() as int,
        ) && r.results@.len() == idx.top_level@.len() && (forall|k: int|
            0 <= k < r.results@.len() ==> crate::projection::mirrors(
                *idx,
                idx.top_level@[k] as int,
                #[trigger] r.results@[k],
            )),
        query_of(term).len() > 0 ==> r.matched_ids_count as int == count_in(
            flat_forest_ids(r.results@),
            match_set(*idx, query_of(term)),
        ),
        query_of(term).len() > 0 && distinct_ids(*idx) ==> flat_forest_ids(r.results@)
            == kept_ids(
            idx.nodes@,
            0,
            idx.nodes@.len() as int,
            keep_set(*idx, query_of(term)),
        ) && r.results@.len() == crate::projection::surv_tops_upto(
            *idx,
            keep_set(*idx, query_of(term)),
            idx.top_level@.len() as int,
        ).len() && (forall|t: int|
            0 <= t < r.results@.len() ==> crate::projection::pruned_mirrors(
                *idx,
                crate::projection::surv_tops_upto(
                    *idx,
                    keep_set(*idx, query_of(term)),
                    idx.top_level@.len() as int,
                )[t] as int,
                keep_set(*idx, query_of(term)),
                #[trigger] r.results@[t],
            )),
{
    let ghost nodes = idx.nodes@;
    let raw: String = match term {
        Some(t) => t,
        None => String::new(),
    };
    let search_term: String = lower_str(trim_str(raw.as_str()));
    let ghost q = query_of(term);
    proof {
        assert(search_term@ == q);
    }
    if search_term.as_str().is_empty() {
        let full = build_full_tree(idx);
        return SearchMatch { matched_ids_count: full.total_nodes, results: full.nodes };
    }
    let store_len = idx.nodes.len();
    let mut matches = PathSet::new();
    let mut keep = PathSet::new();
    let mut k: usize = 0;
    while k < idx.titles.len()
        invariant
            wf(*idx),
            nodes == idx.nodes@,
            q == query_of(term),
            search_term@ == q,
            k <= idx.titles@.len(),
            nodup(matches),
            nodup(keep),
            keep@ == matches@,
            matches@ == Set::new(
                |p: Seq<char>|
                    exists|i: int|
                        0 <= i < k && spec_contains(idx.titles@[i].1@, q) && (
                        #[trigger] nodes[i].id@) == p,
            ),
        decreases idx.titles@.len() - k,
    {
        let entry_idx = idx.titles[k].0;
        proof {
            assert((idx.titles@[k as int].0 as int) == k as int);
        }
        let ghost pre = matches@;
        if crate::strutil::contains_sub(idx.titles[k].1.as_str(), search_term.as_str()) {
            let mid: String = idx.nodes[entry_idx].id.clone();
            let mid2: String = idx.nodes[entry_idx].id.clone();
            matches.insert(mid);
            keep.insert(mid2);
            proof {
                assert(matches@ =~= Set::new(
                    |p: Seq<char>|
                        exists|i: int|
                            0 <= i < k + 1 && spec_contains(idx.titles@[i].1@, q) && (
                            #[trigger] nodes[i].id@) == p,
                )) by {
                    assert forall|p: Seq<char>| pre.insert(nodes[k as int].id@).contains(p)
                        implies Set::new(
                        |p2: Seq<char>|
                            exists|i: int|
                                0 <= i < k + 1 && spec_contains(idx.titles@[i].1@, q) && (
                                #[trigger] nodes[i].id@) == p2,
                    ).contains(p) by {
                        if p == nodes[k as int].id@ {
                            let ki = k as int;
                            assert(0 <= ki < k + 1 && spec_contains(idx.titles@[ki].1@, q)
                                && nodes[ki].id@ == p);
                        } else {
                            let i = choose|i: int|
                                0 <= i < k && spec_contains(idx.titles@[i].1@, q) && (
                                #[trigger] nodes[i].id@) == p;
                            assert(0 <= i < k + 1 && spec_contains(idx.titles@[i].1@, q)
                                && nodes[i].id@ == p);
                        }
                    }
                    assert forall|p: Seq<char>|
                        Set::new(
                            |p2: Seq<char>|
                                exists|i: int|
                                    0 <= i < k + 1 && spec_contains(idx.titles@[i].1@, q) && (
                                    #[trigger] nodes[i].id@) == p2,
                        ).contains(p) implies pre.insert(nodes[k as int].id@).contains(p) by {
                        let i = choose|i: int|
                            0 <= i < k + 1 && spec_contains(idx.titles@[i].1@, q) && (
                            #[trigger] nodes[i].id@) == p;
                        if i < k {
                            assert(pre.contains(p));
                        }
                    }
                }
            }
        } else {
            proof {
                assert(matches@ =~= Set::new(
                    |p: Seq<char>|
                        exists|i: int|
                            0 <= i < k + 1 && spec_contains(idx.titles@[i].1@, q) && (
                            #[trigger] nodes[i].id@) == p,
                )) by {
                    assert forall|p: Seq<char>|
                        Set::new(
                            |p2: Seq<char>|
                                exists|i: int|
                                    0 <= i < k + 1 && spec_contains(idx.titles@[i].1@, q) && (
                                    #[trigger] nodes[i].id@) == p2,
                        ).contains(p) implies pre.contains(p) by {
                        let i = choose|i: int|
                            0 <= i < k + 1 && spec_contains(idx.titles@[i].1@, q) && (
                            #[trigger] nodes[i].id@) == p;
                        assert(i < k);
                    }
                }
            }
        }
        k = k + 1;
    }
    proof {
        assert(matches@ =~= match_set(*idx, q));
    }
    let ghost m_set = match_set(*idx, q);
    proof {
        assert(m_set.subset_of(keep@));
    }
    let ghost a_set = anc_of_matches(*idx, q);
    let ghost d_set = desc_of_dir_matches(*idx, q);
    let mut t: usize = 0;
    while t < matches.items.len()
        invariant
            wf(*idx),
            nodes == idx.nodes@,
            q == query_of(term),
            t <= matches.items@.len(),
            nodup(matches),
            nodup(keep),
            matches@ == m_set,
            m_set == match_set(*idx, q),
            a_set == anc_of_matches(*idx, q),
            m_set.subset_of(keep@),
            distinct_ids(*idx) ==> keep@.subset_of(m_set + a_set),
            distinct_ids(*idx) ==> forall|j: int, mp: int|
                0 <= j < t && is_match(*idx, q, mp) && (#[trigger] nodes[mp].id@) == (
                #[trigger] matches.items@[j]@) ==> anc_ids(nodes, mp).subset_of(keep@),
        decreases matches.items@.len() - t,
    {
        let ghost pre = keep@;
        add_ancestors(matches.items[t].as_str(), idx, &mut keep);
        proof {
            if distinct_ids(*idx) {
                if !crate::projection::has_id(*idx, matches.items@[t as int]@) {
                    assert forall|j: int, mp: int|
                        0 <= j < t + 1 && is_match(*idx, q, mp) && (#[trigger] nodes[mp].id@) == (
                        #[trigger] matches.items@[j]@) implies anc_ids(nodes, mp).subset_of(
                        keep@,
                    ) by {
                        if j < t {
                            assert(anc_ids(nodes, mp).subset_of(pre));
                        } else {
                            assert(crate::projection::has_id(*idx, nodes[mp].id@));
                        }
                    }
                } else {
                    let i = choose|i: int|
                        0 <= i < nodes.len() && (#[trigger] nodes[i].id@)
                            == matches.items@[t as int]@ && keep@ == pre + anc_ids(nodes, i);
                    lemma_anc_char(*idx, i);
                    assert(matches.items@.map_values(|s: String| s@)[t as int]
                        == matches.items@[t as int]@);
                    assert(matches@.contains(nodes[i].id@));
                    let mp0 = choose|mp: int|
                        is_match(*idx, q, mp) && (#[trigger] nodes[mp].id@) == nodes[i].id@;
                    lemma_distinct_id_unique(*idx, i, mp0);
                    assert(is_match(*idx, q, i));
                    assert forall|p: Seq<char>| anc_ids(nodes, i).contains(p) implies (m_set
                        + a_set).contains(p) by {
                        let x = choose|x: int|
                            is_anc(nodes, x, i) && (#[trigger] nodes[x].id@) == p;
                        assert(a_set.contains(p));
                    }
                    assert forall|j: int, mp: int|
                        0 <= j < t + 1 && is_match(*idx, q, mp) && (#[trigger] nodes[mp].id@) == (
                        #[trigger] matches.items@[j]@) implies anc_ids(nodes, mp).subset_of(
                        keep@,
                    ) by {
                        if j < t {
                            assert(anc_ids(nodes, mp).subset_of(pre));
                        } else {
                            lemma_distinct_id_unique(*idx, i, mp);
                        }
                    }
                }
            }
        }
        t = t + 1;
    }
    proof {
        if distinct_ids(*idx) {
            assert forall|mp: int| is_match(*idx, q, mp) implies #[trigger] anc_ids(
                nodes,
                mp,
            ).subset_of(keep@) by {
                assert(m_set.contains(nodes[mp].id@));
                let views = matches.items@.map_values(|s: String| s@);
                assert(matches@.contains(nodes[mp].id@));
                let j = choose|j: int| 0 <= j < views.len() && views[j] == nodes[mp].id@;
                assert(matches.items@[j]@ == nodes[mp].id@);
            }
        }
    }
    let mut t2: usize = 0;
    while t2 < matches.items.len()
        invariant
            wf(*idx),
            nodes == idx.nodes@,
            q == query_of(term),
            t2 <= matches.items@.len(),
            nodup(matches),
            nodup(keep),
            matches@ == m_set,
            m_set == match_set(*idx, q),
            a_set == anc_of_matches(*idx, q),
            d_set == desc_of_dir_matches(*idx, q),
            m_set.subset_of(keep@),
            distinct_ids(*idx) ==> keep@.subset_of(m_set + a_set + d_set),
            distinct_ids(*idx) ==> forall|mp: int|
                is_match(*idx, q, mp) ==> #[trigger] anc_ids(nodes, mp).subset_of(keep@),
            distinct_ids(*idx) ==> forall|j: int, mp: int|
                0 <= j < t2 && is_match(*idx, q, mp) && nodes[mp].kind == NodeKind::Directory && (
                #[trigger] nodes[mp].id@) == (#[trigger] matches.items@[j]@) ==> ids_in_range(
                    nodes,
                    mp + 1,
                    sub_end(nodes, mp),
                ).subset_of(keep@),
        decreases matches.items@.len() - t2,
    {
        let ghost pre = keep@;
        let maybe_node = crate::projection::find_node(idx, matches.items[t2].as_str());
        match maybe_node {
            Some(ni) => {
                let is_dir = matches!(idx.nodes[ni].kind, NodeKind::Directory);
                if is_dir {
                    add_descendants(matches.items[t2].as_str(), idx, &mut keep);
                } else {
                }
                proof {
                    if distinct_ids(*idx) {
                        if is_dir {
                            let i = choose|i: int|
                                0 <= i < nodes.len() && (#[trigger] nodes[i].id@)
                                    == matches.items@[t2 as int]@ && keep@ == pre + ids_in_range(
                                    nodes,
                                    i + 1,
                                    sub_end(nodes, i),
                                );
                            lemma_distinct_id_unique(*idx, i, ni as int);
                            assert(matches.items@.map_values(|s: String| s@)[t2 as int]
                                == matches.items@[t2 as int]@);
                            assert(matches@.contains(nodes[i].id@));
                            let mp0 = choose|mp: int|
                                is_match(*idx, q, mp) && (#[trigger] nodes[mp].id@)
                                    == nodes[i].id@;
                            lemma_distinct_id_unique(*idx, i, mp0);
                            assert(is_match(*idx, q, i));
                            assert forall|p: Seq<char>|
                                ids_in_range(nodes, i + 1, sub_end(nodes, i)).contains(
                                p,
                            ) implies (m_set + a_set + d_set).contains(p) by {
                                assert(d_set.contains(p));
                            }
                            assert forall|mp: int| is_match(*idx, q, mp) implies #[trigger] anc_ids(
                                nodes,
                                mp,
                            ).subset_of(keep@) by {
                                assert(anc_ids(nodes, mp).subset_of(pre));
                                assert(pre.subset_of(keep@));
                            }
                            assert forall|j: int, mp: int|
                                0 <= j < t2 + 1 && is_match(*idx, q, mp) && nodes[mp].kind
                                    == NodeKind::Directory && (#[trigger] nodes[mp].id@) == (
                                #[trigger] matches.items@[j]@) implies ids_in_range(
                                nodes,
                                mp + 1,
                                sub_end(nodes, mp),
                            ).subset_of(keep@) by {
                                if j < t2 {
                                    assert(ids_in_range(nodes, mp + 1, sub_end(nodes, mp)).subset_of(
                                        pre,
                                    ));
                                } else {
                                    lemma_distinct_id_unique(*idx, i, mp);
                                }
                            }
                        } else {
                            assert forall|j: int, mp: int|
                                0 <= j < t2 + 1 && is_match(*idx, q, mp) && nodes[mp].kind
                                    == NodeKind::Directory && (#[trigger] nodes[mp].id@) == (
                                #[trigger] matches.items@[j]@) implies ids_in_range(
                                nodes,
                                mp + 1,
                                sub_end(nodes, mp),
                            ).subset_of(keep@) by {
                                if j == t2 {
                                    lemma_distinct_id_unique(*idx, ni as int, mp);
                                }
                            }
                        }
                    }
                }
            },
            None => {
                proof {
                    if distinct_ids(*idx) {
                        assert forall|j: int, mp: int|
                            0 <= j < t2 + 1 && is_match(*idx, q, mp) && nodes[mp].kind
                                == NodeKind::Directory && (#[trigger] nodes[mp].id@) == (
                            #[trigger] matches.items@[j]@) implies ids_in_range(
                            nodes,
                            mp + 1,
                            sub_end(nodes, mp),
                        ).subset_of(keep@) by {
                            if j == t2 {
                                assert(crate::projection::has_id(*idx, nodes[mp].id@));
                            }
                        }
                    }
                }
            },
        }
        t2 = t2 + 1;
    }
    proof {
        if distinct_ids(*idx) {
            assert(keep@ =~= keep_set(*idx, q)) by {
                assert forall|p: Seq<char>| keep_set(*idx, q).contains(p) implies keep@.contains(
                    p,
                ) by {
                    if m_set.contains(p) {
                    } else if a_set.contains(p) {
                        let (x, m) = choose|x: int, m: int|
                            #![trigger is_anc(nodes, x, m)]
                            is_match(*idx, q, m) && is_anc(nodes, x, m) && nodes[x].id@ == p;
                        lemma_anc_char(*idx, m);
                        assert(anc_ids(nodes, m).contains(p));
                        assert(anc_ids(nodes, m).subset_of(keep@));
                        assert(keep@.contains(p));
                    } else {
                        let m = choose|m: int|
                            #![trigger sub_end(nodes, m)]
                            is_match(*idx, q, m) && nodes[m].kind == NodeKind::Directory
                                && ids_in_range(nodes, m + 1, sub_end(nodes, m)).contains(p);
                        assert(m_set.contains(nodes[m].id@));
                        assert(matches@.contains(nodes[m].id@));
                        let views = matches.items@.map_values(|s2: String| s2@);
                        let j = choose|j: int| 0 <= j < views.len() && views[j] == nodes[m].id@;
                        assert(matches.items@[j]@ == nodes[m].id@);
                        assert(ids_in_range(nodes, m + 1, sub_end(nodes, m)).subset_of(keep@));
                        assert(keep@.contains(p));
                    }
                }
            }
        }
    }
    let mut results: Vec<crate::model::DirectoryNode> = Vec::new();
    let ghost tops = idx.top_level@;
    let mut r: usize = 0;
    while r < idx.top_level.len()
        invariant
            wf(*idx),
            nodes == idx.nodes@,
            tops == idx.top_level@,
            store_len == nodes.len(),
            r <= tops.len(),
            nodup(keep),
            results@.len() == crate::projection::surv_tops_upto(*idx, keep@, r as int).len(),
            forall|t: int|
                0 <= t < results@.len() ==> crate::projection::pruned_mirrors(
                    *idx,
                    crate::projection::surv_tops_upto(*idx, keep@, r as int)[t] as int,
                    keep@,
                    #[trigger] results@[t],
                ),
            flat_forest_ids(results@) == kept_ids(
                nodes,
                0,
                if r < tops.len() {
                    tops[r as int] as int
                } else {
                    nodes.len() as int
                },
                keep@,
            ),
        decreases tops.len() - r,
    {
        let tstart = idx.top_level[r];
        proof {
            assert(closed(nodes, tstart as int));
            lemma_closed_end(nodes, tstart as int);
            if r + 1 < tops.len() {
                assert((tops[r as int + 1] as int) == sub_end(nodes, tstart as int));
            } else {
                assert(sub_end(nodes, tops[tops.len() - 1] as int) == nodes.len());
            }
        }
        let ghost pre_results = results@;
        let ghost nxt: int = if r + 1 < tops.len() {
            tops[r as int + 1] as int
        } else {
            nodes.len() as int
        };
        match crate::projection::pruned_from(idx, tstart, &keep) {
            Some(node) => {
                results.push(node);
                proof {
                    let up1 = crate::projection::surv_tops_upto(*idx, keep@, r + 1);
                    let up0 = crate::projection::surv_tops_upto(*idx, keep@, r as int);
                    assert(up1 =~= up0 + seq![tops[r as int]]);
                    assert forall|t: int|
                        0 <= t < results@.len() implies crate::projection::pruned_mirrors(
                        *idx,
                        up1[t] as int,
                        keep@,
                        #[trigger] results@[t],
                    ) by {
                        if t < up0.len() {
                            assert(results@[t] == pre_results[t]);
                            assert(up1[t] == up0[t]);
                        } else {
                            assert(up1[t] == tops[r as int]);
                        }
                    }
                    crate::projection::lemma_flat_push(pre_results, node, 0);
                    lemma_kept_concat(nodes, 0, tstart as int, nxt, keep@);
                    lemma_kept_concat(nodes, tstart as int, sub_end(nodes, tstart as int), nxt, keep@);
                    assert(sub_end(nodes, tstart as int) == nxt);
                    assert(kept_ids(nodes, sub_end(nodes, tstart as int), nxt, keep@) =~= Seq::<
                        Seq<char>,
                    >::empty());
                    assert(flat_forest_ids(results@) =~= kept_ids(nodes, 0, nxt, keep@));
                }
            },
            None => {
                proof {
                    assert(crate::projection::surv_tops_upto(*idx, keep@, r + 1)
                        =~= crate::projection::surv_tops_upto(*idx, keep@, r as int));
                    crate::projection::lemma_kept_none(nodes, tstart as int, keep@);
                    lemma_kept_concat(nodes, 0, tstart as int, nxt, keep@);
                    assert(sub_end(nodes, tstart as int) == nxt);
                    assert(flat_forest_ids(results@) =~= kept_ids(nodes, 0, nxt, keep@));
                }
            },
        }
        r = r + 1;
    }
    proof {
        if tops.len() == 0 {
            assert(nodes.len() == 0);
            assert(flat_forest_ids(results@) == kept_ids(nodes, 0, nodes.len() as int, keep@));
        }
        lemma_kept_len(nodes, 0, nodes.len() as int, keep@);
    }
    let matched_count = count_matched_nodes(&results, &matches);
    SearchMatch { matched_ids_count: matched_count, results }
}

/// Entry `t` of a range projection is the id of a surviving position of
/// that range.
pub open spec fn kept_entry_ok(
    nodes: Seq<NodeInfo>,
    lo: int,
    hi: int,
    keep: Set<Seq<char>>,
    t: int,
) -> bool {
    exists|j: int|
        lo <= j < hi && survives(nodes, j, keep) && (#[trigger] nodes[j].id@) == kept_ids(
            nodes,
            lo,
            hi,
            keep,
        )[t]
}

/// Every entry of a range projection is the id of a surviving position of
/// that range.
pub proof fn lemma_kept_entries(nodes: Seq<NodeInfo>, lo: int, hi: int, keep: Set<Seq<char>>)
    requires
        lo <= hi,
    ensures
        forall|t: int|
            0 <= t < kept_ids(nodes, lo, hi, keep).len() ==> #[trigger] kept_entry_ok(
                nodes,
                lo,
                hi,
                keep,
                t,
            ),
    decreases hi - lo,
{
    if lo < hi {
        lemma_kept_entries(nodes, lo + 1, hi, keep);
        let rest = kept_ids(nodes, lo + 1, hi, keep);
        let whole = kept_ids(nodes, lo, hi, keep);
        assert forall|t: int| 0 <= t < whole.len() implies #[trigger] kept_entry_ok(
            nodes,
            lo,
            hi,
            keep,
            t,
        ) by {
            if survives(nodes, lo, keep) {
                if t == 0 {
                    assert(nodes[lo].id@ == whole[0]);
                    assert(lo <= lo < hi && survives(nodes, lo, keep) && nodes[lo].id@
                        == whole[0]);
                } else {
                    assert(whole[t] == rest[t - 1]);
                    assert(kept_entry_ok(nodes, lo + 1, hi, keep, t - 1));
                    let j = choose|j: int|
                        lo + 1 <= j < hi && survives(nodes, j, keep) && (#[trigger] nodes[j].id@)
                            == rest[t - 1];
                    assert(lo <= j < hi && survives(nodes, j, keep) && nodes[j].id@ == whole[t]);
                }
            } else {
                assert(whole[t] == rest[t]);
                assert(kept_entry_ok(nodes, lo + 1, hi, keep, t));
                let j = choose|j: int|
                    lo + 1 <= j < hi && survives(nodes, j, keep) && (#[trigger] nodes[j].id@)
                        == rest[t];
                assert(lo <= j < hi && survives(nodes, j, keep) && nodes[j].id@ == whole[t]);
            }
        }
    }
}

/// A surviving position's id appears in the projection of any range that
/// contains the position.
pub proof fn lemma_kept_at(nodes: Seq<NodeInfo>, lo: int, j: int, hi: int, keep: Set<Seq<char>>)
    requires
        lo <= j < hi,
        survives(nodes, j, keep),
    ensures
        kept_ids(nodes, lo, hi, keep).to_set().contains(nodes[j].id@),
    decreases j - lo,
{
    let whole = kept_ids(nodes, lo, hi, keep);
    if j == lo {
        assert(whole[0] == nodes[j].id@);
        assert(whole.contains(nodes[j].id@));
    } else {
        lemma_kept_at(nodes, lo + 1, j, hi, keep);
        let rest = kept_ids(nodes, lo + 1, hi, keep);
        let t = choose|t: int| 0 <= t < rest.len() && rest[t] == nodes[j].id@;
        if survives(nodes, lo, keep) {
            assert(whole[t + 1] == rest[t]);
        } else {
            assert(whole[t] == rest[t]);
        }
        assert(whole.contains(nodes[j].id@));
    }
}

/// In an index with distinct ids, a position that survives pruning by a
/// search keep-set carries a kept id itself: the keep-set is closed under
/// taking ancestors, so context directories are themselves kept.
pub proof fn lemma_survivor_in_keep(idx: TreeIndex, q: Seq<char>, j: int)
    requires
        wf(idx),
        distinct_ids(idx),
        0 <= j < idx.nodes@.len(),
        survives(idx.nodes@, j, keep_set(idx, q)),
    ensures
        keep_set(idx, q).contains(idx.nodes@[j].id@),
{
    let nodes = idx.nodes@;
    let kset = keep_set(idx, q);
    lemma_wf_closed_at(idx, j);
    lemma_closed_end(nodes, j);
    let y = choose|y: int| j <= y < sub_end(nodes, j) && kset.contains(#[trigger] nodes[y].id@);
    assert(0 <= y < nodes.len());
    if match_set(idx, q).contains(nodes[y].id@) {
        let mp = choose|mp: int|
            is_match(idx, q, mp) && (#[trigger] nodes[mp].id@) == nodes[y].id@;
        lemma_distinct_id_unique(idx, y, mp);
        if j == y {
            assert(match_set(idx, q).contains(nodes[j].id@));
        } else {
            assert(is_anc(nodes, j, y));
            assert(anc_of_matches(idx, q).contains(nodes[j].id@));
        }
    } else if anc_of_matches(idx, q).contains(nodes[y].id@) {
        let (x0, m0) = choose|x0: int, m0: int|
            #![trigger is_anc(nodes, x0, m0)]
            is_match(idx, q, m0) && is_anc(nodes, x0, m0) && nodes[x0].id@ == nodes[y].id@;
        lemma_distinct_id_unique(idx, y, x0);
        if j == y {
            assert(anc_of_matches(idx, q).contains(nodes[j].id@));
        } else {
            lemma_interior_closed(nodes, j, y);
            assert(is_anc(nodes, j, m0));
            assert(anc_of_matches(idx, q).contains(nodes[j].id@));
        }
    } else {
        let m1 = choose|m1: int|
            #![trigger sub_end(nodes, m1)]
            is_match(idx, q, m1) && nodes[m1].kind == NodeKind::Directory && ids_in_range(
                nodes,
                m1 + 1,
                sub_end(nodes, m1),
            ).contains(nodes[y].id@);
        let w = choose|w: int|
            m1 + 1 <= w < sub_end(nodes, m1) && (#[trigger] nodes[w].id@) == nodes[y].id@;
        lemma_wf_closed_at(idx, m1);
        lemma_closed_end(nodes, m1);
        lemma_distinct_id_unique(idx, y, w);
        if j == y {
            assert(desc_of_dir_matches(idx, q).contains(nodes[j].id@));
        } else if j == m1 {
            assert(match_set(idx, q).contains(nodes[j].id@));
        } else if m1 < j {
            assert(m1 + 1 <= j < sub_end(nodes, m1) && nodes[j].id@ == nodes[j].id@);
            assert(ids_in_range(nodes, m1 + 1, sub_end(nodes, m1)).contains(nodes[j].id@));
            assert(desc_of_dir_matches(idx, q).contains(nodes[j].id@));
        } else {
            assert(is_anc(nodes, j, m1));
            assert(anc_of_matches(idx, q).contains(nodes[j].id@));
        }
    }
}

/// Every id shown by a search projection belongs to the keep-set, and every
/// genuine hit sits inside the range of a top-level subtree, so its whole
/// ancestor path up to a top-level node is shown with it.
pub proof fn lemma_search_projection_sound(idx: TreeIndex, term: Option<String>)
    requires
        wf(idx),
        distinct_ids(idx),
    ensures
        forall|p: Seq<char>|
            kept_ids(
                idx.nodes@,
                0,
                idx.nodes@.len() as int,
                keep_set(idx, query_of(term)),
            ).to_set().contains(p) ==> keep_set(idx, query_of(term)).contains(p),
        forall|m: int|
            is_match(idx, query_of(term), m) ==> exists|k: int|
                0 <= k < idx.top_level@.len() && (#[trigger] idx.top_level@[k] as int) <= m
                    < sub_end(idx.nodes@, idx.top_level@[k] as int),
{
    let nodes = idx.nodes@;
    let q = query_of(term);
    let kset = keep_set(idx, q);
    let whole = kept_ids(nodes, 0, nodes.len() as int, kset);
    lemma_kept_entries(nodes, 0, nodes.len() as int, kset);
    assert forall|p: Seq<char>| whole.to_set().contains(p) implies kset.contains(p) by {
        let t = choose|t: int| 0 <= t < whole.len() && whole[t] == p;
        assert(kept_entry_ok(nodes, 0, nodes.len() as int, kset, t));
        let j = choose|j: int|
            0 <= j < nodes.len() && survives(nodes, j, kset) && (#[trigger] nodes[j].id@)
                == whole[t];
        lemma_survivor_in_keep(idx, q, j);
        assert(kset.contains(nodes[j].id@));
    }
    assert forall|m: int| is_match(idx, q, m) implies exists|k: int|
        0 <= k < idx.top_level@.len() && (#[trigger] idx.top_level@[k] as int) <= m < sub_end(
            nodes,
            idx.top_level@[k] as int,
        ) by {
        lemma_wf_closed_at(idx, m);
    }
}

/// A matched directory surfaces its entire subtree: the id of every
/// position below it appears in the search projection.
pub proof fn lemma_dir_match_shows_subtree(
    idx: TreeIndex,
    term: Option<String>,
    m: int,
    x: int,
)
    requires
        wf(idx),
        is_match(idx, query_of(term), m),
        idx.nodes@[m].kind == NodeKind::Directory,
        m < x < sub_end(idx.nodes@, m),
    ensures
        kept_ids(
            idx.nodes@,
            0,
            idx.nodes@.len() as int,
            keep_set(idx, query_of(term)),
        ).to_set().contains(idx.nodes@[x].id@),
{
    let nodes = idx.nodes@;
    let q = query_of(term);
    let kset = keep_set(idx, q);
    lemma_wf_closed_at(idx, m);
    lemma_closed_end(nodes, m);
    assert(ids_in_range(nodes, m + 1, sub_end(nodes, m)).contains(nodes[x].id@)) by {
        assert(m + 1 <= x < sub_end(nodes, m) && nodes[x].id@ == nodes[x].id@);
    }
    assert(desc_of_dir_matches(idx, q).contains(nodes[x].id@));
    lemma_interior_closed(nodes, m, x);
    lemma_closed_end(nodes, x);
    assert(survives(nodes, x, kset)) by {
        assert(x < sub_end(nodes, x) && kset.contains(nodes[x].id@));
    }
    lemma_kept_at(nodes, 0, x, nodes.len() as int, kset);
}

/// Counting entries of a list that fall in `m` is unchanged by removing an
/// element the list never carries.
proof fn lemma_count_remove(ids: Seq<Seq<char>>, m: Set<Seq<char>>, x: Seq<char>)
    requires
        !ids.contains(x),
    ensures
        count_in(ids, m.remove(x)) == count_in(ids, m),
    decreases ids.len(),
{
    if ids.len() > 0 {
        assert(ids[0] != x);
        let rest = ids.subrange(1, ids.len() as int);
        assert(!rest.contains(x)) by {
            if rest.contains(x) {
                let t = choose|t: int| 0 <= t < rest.len() && rest[t] == x;
                assert(ids[t + 1] == x);
            }
        }
        lemma_count_remove(rest, m, x);
    }
}

/// A duplicate-free list has at most `m.len()` entries in a finite `m`.
pub proof fn lemma_count_distinct(ids: Seq<Seq<char>>, m: Set<Seq<char>>)
    requires
        ids.no_duplicates(),
        m.finite(),
    ensures
        count_in(ids, m) <= m.len(),
    decreases ids.len(),
{
    if ids.len() > 0 {
        let rest = ids.subrange(1, ids.len() as int);
        assert(rest.no_duplicates());
        assert(!rest.contains(ids[0])) by {
            if rest.contains(ids[0]) {
                let t = choose|t: int| 0 <= t < rest.len() && rest[t] == ids[0];
                assert(ids[t + 1] == ids[0]);
            }
        }
        if m.contains(ids[0]) {
            lemma_count_remove(rest, m, ids[0]);
            lemma_count_distinct(rest, m.remove(ids[0]));
        } else {
            lemma_count_distinct(rest, m);
        }
    }
}

/// With distinct ids, a range projection never shows the same id twice.
pub proof fn lemma_kept_nodup(idx: TreeIndex, lo: int, hi: int, keep: Set<Seq<char>>)
    requires
        distinct_ids(idx),
        0 <= lo,
        hi <= idx.nodes@.len(),
    ensures
        kept_ids(idx.nodes@, lo, hi, keep).no_duplicates(),
    decreases hi - lo,
{
    let nodes = idx.nodes@;
    if lo < hi {
        lemma_kept_nodup(idx, lo + 1, hi, keep);
        lemma_kept_entries(nodes, lo + 1, hi, keep);
        let rest = kept_ids(nodes, lo + 1, hi, keep);
        let whole = kept_ids(nodes, lo, hi, keep);
        if survives(nodes, lo, keep) {
            assert forall|a: int, b: int| 0 <= a < b < whole.len() implies whole[a] != whole[b] by {
                if a == 0 {
                    assert(whole[b] == rest[b - 1]);
                    assert(kept_entry_ok(nodes, lo + 1, hi, keep, b - 1));
                    let j = choose|j: int|
                        lo + 1 <= j < hi && survives(nodes, j, keep) && (#[trigger] nodes[j].id@)
                            == rest[b - 1];
                    assert(nodes[lo].id@ != nodes[j].id@);
                } else {
                    assert(whole[a] == rest[a - 1] && whole[b] == rest[b - 1]);
                }
            }
        }
    }
}

/// The match count of a search never exceeds the number of genuine
/// substring hits, however many ancestors the projection pulls in.
pub proof fn lemma_matched_count_bound(idx: TreeIndex, term: Option<String>)
    requires
        wf(idx),
        distinct_ids(idx),
    ensures
        count_in(
            kept_ids(idx.nodes@, 0, idx.nodes@.len() as int, keep_set(idx, query_of(term))),
            match_set(idx, query_of(term)),
        ) <= match_set(idx, query_of(term)).len(),
{
    let nodes = idx.nodes@;
    let q = query_of(term);
    let kset = keep_set(idx, q);
    let mset = match_set(idx, q);
    lemma_kept_nodup(idx, 0, nodes.len() as int, kset);
    assert(mset.subset_of(crate::projection::ids_in_range(nodes, 0, nodes.len() as int))) by {
        assert forall|p: Seq<char>| mset.contains(p) implies crate::projection::ids_in_range(
            nodes,
            0,
            nodes.len() as int,
        ).contains(p) by {
            let i = choose|i: int| is_match(idx, q, i) && (#[trigger] nodes[i].id@) == p;
            assert(0 <= i < nodes.len() && nodes[i].id@ == p);
        }
    }
    assert(crate::projection::ids_in_range(nodes, 0, nodes.len() as int).finite() && crate::projection::ids_in_range(
        nodes,
        0,
        nodes.len() as int,
    ).len() <= nodes.len()) by {
        lemma_range_finite(idx);
    }
    vstd::set_lib::lemma_len_subset(
        mset,
        crate::projection::ids_in_range(nodes, 0, nodes.len() as int),
    );
    lemma_count_distinct(kept_ids(nodes, 0, nodes.len() as int, kset), mset);
}

/// The id set of the whole store is finite.
proof fn lemma_range_finite(idx: TreeIndex)
    ensures
        crate::projection::ids_in_range(idx.nodes@, 0, idx.nodes@.len() as int).finite(),
        crate::projection::ids_in_range(idx.nodes@, 0, idx.nodes@.len() as int).len()
            <= idx.nodes@.len(),
{
    let nodes = idx.nodes@;
    let all = crate::projection::all_ids(nodes, 0, nodes.len() as int);
    crate::projection::lemma_all_ids_len(nodes, 0, nodes.len() as int);
    lemma_all_ids_at(nodes, 0, nodes.len() as int);
    assert(crate::projection::ids_in_range(nodes, 0, nodes.len() as int) =~= all.to_set()) by {
        assert forall|p: Seq<char>|
            crate::projection::ids_in_range(nodes, 0, nodes.len() as int).contains(
            p,
        ) implies all.to_set().contains(p) by {
            let j = choose|j: int| 0 <= j < nodes.len() && (#[trigger] nodes[j].id@) == p;
            assert(all[j] == nodes[j].id@);
            assert(all.contains(p));
        }
        assert forall|p: Seq<char>| all.to_set().contains(p) implies crate::projection::ids_in_range(
            nodes,
            0,
            nodes.len() as int,
        ).contains(p) by {
            let t = choose|t: int| 0 <= t < all.len() && all[t] == p;
            assert(all[t] == nodes[t].id@);
        }
    }
    all.lemma_cardinality_of_set();
}

/// Entry `t` of a full range listing is the id at position `lo + t`.
proof fn lemma_all_ids_at(nodes: Seq<NodeInfo>, lo: int, hi: int)
    requires
        lo <= hi,
    ensures
        forall|t: int|
            0 <= t < hi - lo ==> (#[trigger] crate::projection::all_ids(nodes, lo, hi)[t])
                == nodes[lo + t].id@,
    decreases hi - lo,
{
    crate::projection::lemma_all_ids_len(nodes, lo, hi);
    if lo < hi {
        lemma_all_ids_at(nodes, lo + 1, hi);
        crate::projection::lemma_all_ids_len(nodes, lo + 1, hi);
        let whole = crate::projection::all_ids(nodes, lo, hi);
        let rest = crate::projection::all_ids(nodes, lo + 1, hi);
        assert forall|t: int| 0 <= t < hi - lo implies (#[trigger] whole[t]) == nodes[lo
            + t].id@ by {
            if t > 0 {
                assert(whole[t] == rest[t - 1]);
                assert(rest[t - 1] == nodes[lo + 1 + (t - 1)].id@);
            }
        }
    }
}

/// A projection of a range shows at most one entry per position.
pub proof fn lemma_kept_len(nodes: Seq<NodeInfo>, lo: int, hi: int, keep: Set<Seq<char>>)
    requires
        lo <= hi,
    ensures
        kept_ids(nodes, lo, hi, keep).len() <= hi - lo,
    decreases hi - lo,
{
    if lo < hi {
        lemma_kept_len(nodes, lo + 1, hi, keep);
    }
}

} // verus!
