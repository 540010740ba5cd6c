//! Rendering a nested forest as the familiar box-drawing tree, either in
//! full or restricted to the selected nodes and their ancestors.  Selected
//! nodes are marked with an asterisk; the legend for that mark is added by
//! the clipboard assembly.

use vstd::prelude::*;

use crate::model::{DirectoryNode, NodeKind};
use crate::paths::PathSet;

verus! {

/// The connector glyph before an entry: corner for the last sibling.
pub open spec fn connector_of(is_last: bool) -> Seq<char> {
    if is_last {
        "└── "@
    } else {
        "├── "@
    }
}

/// The padding a child row inherits: blank under a corner, a bar otherwise.
pub open spec fn pad_of(is_last: bool) -> Seq<char> {
    if is_last {
        "    "@
    } else {
        "│   "@
    }
}

/// One rendered row: prefix, connector, title, and the selection mark.
pub open spec fn row_of(prefix: Seq<char>, is_last: bool, title: Seq<char>, starred: bool) -> Seq<
    char,
> {
    prefix + connector_of(is_last) + title + (if starred {
        " *"@
    } else {
        Seq::empty()
    })
}

/// The rows of the full forest from sibling `k` on, depth first.
pub open spec fn full_rows(
    s: Seq<DirectoryNode>,
    k: int,
    prefix: Seq<char>,
    sel: Set<Seq<char>>,
) -> Seq<Seq<char>>
    decreases s, s.len() - k, 0int,
{
    if 0 <= k < s.len() {
        let is_last = k == s.len() - 1;
        let row = row_of(prefix, is_last, s[k].title@, sel.contains(s[k].id@));
        let below = if s[k].kind == NodeKind::Directory {
            full_rows(s[k].children@, 0, prefix + pad_of(is_last), sel)
        } else {
            Seq::empty()
        };
        seq![row] + below + full_rows(s, k + 1, prefix, sel)
    } else {
        Seq::empty()
    }
}

/// A node is kept in the selected rendering: selected itself, or some
/// descendant is kept.
pub open spec fn kept_node(n: DirectoryNode, sel: Set<Seq<char>>) -> bool
    decreases n, 0int, 0int,
{
    sel.contains(n.id@) || any_kept(n.children@, 0, sel)
}

/// Some node from sibling `k` on is kept.
pub open spec fn any_kept(s: Seq<DirectoryNode>, k: int, sel: Set<Seq<char>>) -> bool
    decreases s, s.len() - k, 1int,
{
    if 0 <= k < s.len() {
        kept_node(s[k], sel) || any_kept(s, k + 1, sel)
    } else {
        false
    }
}

/// The rows of the selected rendering from sibling `k` on: dropped nodes
/// leave no row, and the connector looks ahead to the last kept sibling.
pub open spec fn sel_rows(
    s: Seq<DirectoryNode>,
    k: int,
    prefix: Seq<char>,
    sel: Set<Seq<char>>,
) -> Seq<Seq<char>>
    decreases s, s.len() - k, 0int,
{
    if 0 <= k < s.len() {
        if kept_node(s[k], sel) {
            let is_last = !any_kept(s, k + 1, sel);
            let row = row_of(prefix, is_last, s[k].title@, sel.contains(s[k].id@));
            let below = if s[k].kind == NodeKind::Directory {
                sel_rows(s[k].children@, 0, prefix + pad_of(is_last), sel)
            } else {
                Seq::empty()
            };
            seq![row] + below + sel_rows(s, k + 1, prefix, sel)
        } else {
            sel_rows(s, k + 1, prefix, sel)
        }
    } else {
        Seq::empty()
    }
}

/// Rows joined with newlines, no trailing newline.
pub open spec fn joined(rows: Seq<Seq<char>>) -> Seq<char>
    decreases rows.len(),
{
    if rows.len() == 0 {
        Seq::empty()
    } else if rows.len() == 1 {
        rows[0]
    } else {
        rows[0] + "\n"@ + joined(rows.subrange(1, rows.len() as int))
    }
}

/// Whether any node from sibling `k` on is kept.
fn any_kept_exec(nodes: &Vec<DirectoryNode>, k: usize, sel: &PathSet) -> (r: bool)
    ensures
        r == any_kept(nodes@, k as int, sel@),
    decreases nodes, nodes@.len() - k, 1int,
{
    if k >= nodes.len() {
        return false;
    }
    if kept_exec(&nodes[k], sel) {
        return true;
    }
    any_kept_exec(nodes, k + 1, sel)
}

/// Whether this node is kept in the selected rendering.
fn kept_exec(n: &DirectoryNode, sel: &PathSet) -> (r: bool)
    ensures
        r == kept_node(*n, sel@),
    decreases n, 0int, 0int,
{
    if sel.contains(n.id.as_str()) {
        return true;
    }
    any_kept_exec(&n.children, 0, sel)
}

/// Builds one row string.
fn build_row(prefix: &String, is_last: bool, title: &String, starred: bool) -> (r: String)
    ensures
        r@ == row_of(prefix@, is_last, title@, starred),
{
    let mut line = prefix.clone();
    if is_last {
        line.append("└── ");
    } else {
        line.append("├── ");
    }
    line.append(title.as_str());
    if starred {
        line.append(" *");
    }
    line
}

/// The child prefix under an entry.
fn build_pad(prefix: &String, is_last: bool) -> (r: String)
    ensures
        r@ == prefix@ + pad_of(is_last),
{
    let mut p = prefix.clone();
    if is_last {
        p.append("    ");
    } else {
        p.append("│   ");
    }
    p
}

/// Appends the full rows of the forest from sibling `k` on.
fn render_full_from(
    nodes: &Vec<DirectoryNode>,
    k: usize,
    prefix: &String,
    sel: &PathSet,
    lines: &mut Vec<String>,
)
    ensures
        final(lines)@.map_values(|s: String| s@) == old(lines)@.map_values(|s: String| s@)
            + full_rows(nodes@, k as int, prefix@, sel@),
    decreases nodes, nodes@.len() - k, 0int,
{
    if k >= nodes.len() {
        proof {
            assert(old(lines)@.map_values(|s: String| s@) + full_rows(
                nodes@,
                k as int,
                prefix@,
                sel@,
            ) =~= old(lines)@.map_values(|s: String| s@));
        }
        return ;
    }
    let is_last = k == nodes.len() - 1;
    let starred = sel.contains(nodes[k].id.as_str());
    let row = build_row(prefix, is_last, &nodes[k].title, starred);
    let ghost pre = lines@.map_values(|s: String| s@);
    lines.push(row);
    proof {
        assert(lines@.map_values(|s: String| s@) =~= pre + seq![
            row_of(prefix@, is_last, nodes@[k as int].title@, sel@.contains(nodes@[k as int].id@)),
        ]);
    }
    if matches!(nodes[k].kind, NodeKind::Directory) {
        let pad = build_pad(prefix, is_last);
        render_full_from(&nodes[k].children, 0, &pad, sel, lines);
    }
    render_full_from(nodes, k + 1, prefix, sel, lines);
    proof {
        assert(final(lines)@.map_values(|s: String| s@) =~= old(lines)@.map_values(|s: String| s@)
            + full_rows(nodes@, k as int, prefix@, sel@));
    }
}

/// Appends the selected rows of the forest from sibling `k` on.
fn render_sel_from(
    nodes: &Vec<DirectoryNode>,
    k: usize,
    prefix: &String,
    sel: &PathSet,
    lines: &mut Vec<String>,
)
    ensures
        final(lines)@.map_values(|s: String| s@) == old(lines)@.map_values(|s: String| s@)
            + sel_rows(nodes@, k as int, prefix@, sel@),
    decreases nodes, nodes@.len() - k, 0int,
{
    if k >= nodes.len() {
        proof {
            assert(old(lines)@.map_values(|s: String| s@) + sel_rows(
                nodes@,
                k as int,
                prefix@,
                sel@,
            ) =~= old(lines)@.map_values(|s: String| s@));
        }
        return ;
    }
    if !kept_exec(&nodes[k], sel) {
        render_sel_from(nodes, k + 1, prefix, sel, lines);
        return ;
    }
    let is_last = !any_kept_exec(nodes, k + 1, sel);
    let starred = sel.contains(nodes[k].id.as_str());
    let row = build_row(prefix, is_last, &nodes[k].title, starred);
    let ghost pre = lines@.map_values(|s: String| s@);
    lines.push(row);
    proof {
        assert(lines@.map_values(|s: String| s@) =~= pre + seq![
            row_of(prefix@, is_last, nodes@[k as int].title@, sel@.contains(nodes@[k as int].id@)),
        ]);
    }
    if matches!(nodes[k].kind, NodeKind::Directory) {
        let pad = build_pad(prefix, is_last);
        render_sel_from(&nodes[k].children, 0, &pad, sel, lines);
    }
    render_sel_from(nodes, k + 1, prefix, sel, lines);
    proof {
        assert(final(lines)@.map_values(|s: String| s@) =~= old(lines)@.map_values(|s: String| s@)
            + sel_rows(nodes@, k as int, prefix@, sel@));
    }
}

/// Joins rows with newlines.
fn join_lines(lines: &Vec<String>) -> (r: String)
    ensures
        r@ == joined(lines@.map_values(|s: String| s@)),
{
    let ghost rows = lines@.map_values(|s: String| s@);
    let mut out = String::new();
    let mut k: usize = 0;
    while k < lines.len()
        invariant
            rows == lines@.map_values(|s: String| s@),
            k <= rows.len(),
            out@ == joined(rows.subrange(0, k as int)),
        decreases rows.len() - k,
    {
        if k > 0 {
            out.append("\n");
        }
        out.append(lines[k].as_str());
        proof {
            lemma_joined_snoc(rows, k as int);
        }
        k = k + 1;
    }
    proof {
        assert(rows.subrange(0, rows.len() as int) =~= rows);
    }
    out
}

/// Appending a row to a non-empty prefix appends a newline and the row.
proof fn lemma_joined_snoc(rows: Seq<Seq<char>>, k: int)
    requires
        0 <= k < rows.len(),
    ensures
        k == 0 ==> joined(rows.subrange(0, k + 1)) == rows[0],
        k > 0 ==> joined(rows.subrange(0, k + 1)) == joined(rows.subrange(0, k)) + "\n"@
            + rows[k],
    decreases k,
{
    if k == 0 {
        assert(rows.subrange(0, 1) =~= seq![rows[0]]);
        assert(joined(seq![rows[0]]) == rows[0]);
    } else {
        lemma_joined_snoc_general(rows.subrange(0, k + 1));
        assert(rows.subrange(0, k + 1).drop_last() =~= rows.subrange(0, k));
        assert(rows.subrange(0, k + 1).last() == rows[k]);
    }
}

/// Joining a list of two or more rows splits at the last row.
proof fn lemma_joined_snoc_general(rows: Seq<Seq<char>>)
    requires
        rows.len() >= 2,
    ensures
        joined(rows) == joined(rows.drop_last()) + "\n"@ + rows.last(),
    decreases rows.len(),
{
    if rows.len() == 2 {
        assert(rows.subrange(1, 2) =~= seq![rows[1]]);
        assert(rows.drop_last() =~= seq![rows[0]]);
        assert(joined(seq![rows[1]]) == rows[1]);
        assert(joined(seq![rows[0]]) == rows[0]);
        assert(joined(rows) =~= joined(rows.drop_last()) + "\n"@ + rows.last());
    } else {
        let rest = rows.subrange(1, rows.len() as int);
        lemma_joined_snoc_general(rest);
        assert(rest.drop_last() =~= rows.drop_last().subrange(
            1,
            rows.drop_last().len() as int,
        ));
        assert(rest.last() == rows.last());
        assert(joined(rows.drop_last()) == rows[0] + "\n"@ + joined(rest.drop_last()));
        assert(joined(rows) =~= joined(rows.drop_last()) + "\n"@ + rows.last());
    }
}

/// Renders the whole forest, every node shown, selected nodes starred.
pub fn render_full_tree(nodes: &Vec<DirectoryNode>, selected: &PathSet) -> (r: String)
    ensures
        r@ == joined(full_rows(nodes@, 0, Seq::empty(), selected@)),
{
    let mut lines: Vec<String> = Vec::new();
    let empty_prefix = String::new();
    render_full_from(nodes, 0, &empty_prefix, selected, &mut lines);
    proof {
        assert(Seq::<Seq<char>>::empty() + full_rows(nodes@, 0, Seq::empty(), selected@)
            =~= full_rows(nodes@, 0, Seq::empty(), selected@));
        assert(lines@.map_values(|s: String| s@) =~= full_rows(nodes@, 0, Seq::empty(), selected@));
    }
    join_lines(&lines)
}

/// Renders only the selected nodes and the directories needed to reach
/// them; a subtree with nothing selected leaves no rows at all.
pub fn render_selected_tree(nodes: &Vec<DirectoryNode>, selected: &PathSet) -> (r: String)
    ensures
        r@ == joined(sel_rows(nodes@, 0, Seq::empty(), selected@)),
{
    let mut lines: Vec<String> = Vec::new();
    let empty_prefix = String::new();
    render_sel_from(nodes, 0, &empty_prefix, selected, &mut lines);
    proof {
        assert(Seq::<Seq<char>>::empty() + sel_rows(nodes@, 0, Seq::empty(), selected@)
            =~= sel_rows(nodes@, 0, Seq::empty(), selected@));
        assert(lines@.map_values(|s: String| s@) =~= sel_rows(nodes@, 0, Seq::empty(), selected@));
    }
    join_lines(&lines)
}

} // verus!
