//! Assembling the clipboard payload: the rendered tree section, the file
//! contents section, the git diff section, saved web pages, and
//! instruction sections, each wrapped in its tags exactly.

use vstd::prelude::*;

use crate::instructions::{Instruction, InstructionEntry, SavedInstruction};
use crate::model::DirectoryNode;
use crate::paths::PathSet;
use crate::render::{full_rows, joined, render_full_tree, render_selected_tree, sel_rows};
use crate::strutil::{str_eq, trim_str, trimmed_of};

verus! {

/// The fixed answer for a missing saved page.
pub fn page_not_found() -> (r: String)
    ensures
        r@ == "Saved page not found."@,
{
    let r: String = String::from_str("Saved page not found.");
    r
}

/// What the tree section shows under each display mode: the selected
/// rendering, the full rendering, or nothing.
pub open spec fn rendered_tree_spec(
    mode: Seq<char>,
    nodes: Seq<DirectoryNode>,
    sel: Set<Seq<char>>,
) -> Seq<char> {
    if mode == "selected"@ {
        joined(sel_rows(nodes, 0, Seq::empty(), sel))
    } else if mode == "full"@ {
        joined(full_rows(nodes, 0, Seq::empty(), sel))
    } else {
        Seq::empty()
    }
}

/// Renders the tree section for a display mode; any unknown mode renders
/// nothing.
pub fn get_rendered_tree(
    tree_display_mode: &str,
    full_tree: &Vec<DirectoryNode>,
    selected_nodes: &PathSet,
) -> (r: String)
    ensures
        r@ == rendered_tree_spec(tree_display_mode@, full_tree@, selected_nodes@),
{
    if str_eq(tree_display_mode, "selected") {
        render_selected_tree(full_tree, selected_nodes)
    } else if str_eq(tree_display_mode, "full") {
        render_full_tree(full_tree, selected_nodes)
    } else {
        String::new()
    }
}

/// The file-tree section: tags, root, rendered tree and the legend for the
/// asterisk mark; empty when there is no rendered tree.
pub open spec fn file_tree_spec(rendered: Seq<char>, root: Seq<char>) -> Seq<char> {
    if rendered.len() == 0 {
        Seq::empty()
    } else {
        "<file_tree>"@ + "\n"@ + root + "\n"@ + rendered + "\n"@ + "\n"@
            + "The contents of the files marked with an asterisk (*) are included below."@ + "\n"@
            + "</file_tree>"@ + "\n"@
    }
}

/// Wraps a rendered tree in the file-tree section.
pub fn build_file_tree(rendered_tree: &str, root: &str) -> (r: String)
    ensures
        r@ == file_tree_spec(rendered_tree@, root@),
{
    if rendered_tree.is_empty() {
        return String::new();
    }
    let mut out: String = String::from_str("<file_tree>");
    out.append("\n");
    out.append(root);
    out.append("\n");
    out.append(rendered_tree);
    out.append("\n");
    out.append("\n");
    out.append("The contents of the files marked with an asterisk (*) are included below.");
    out.append("\n");
    out.append("</file_tree>");
    out.append("\n");
    out
}

/// The git-diff section: empty when no paths were requested or no diff
/// text came back, the tagged diff otherwise.
pub open spec fn git_diff_spec(n_paths: nat, diff: Option<Seq<char>>) -> Seq<char> {
    if n_paths == 0 {
        Seq::empty()
    } else {
        match diff {
            Option::Some(d) => "\n"@ + "<git_diff>"@ + "\n"@ + d + "\n"@ + "</git_diff>"@
                + "\n"@,
            Option::None => Seq::empty(),
        }
    }
}

/// Wraps the diff text the version-control collaborator produced for the
/// requested paths; no paths or no diff yields an empty section.
pub fn build_git_diff(git_diff_paths: &Vec<String>, diff: Option<&String>) -> (r: String)
    ensures
        r@ == git_diff_spec(
            git_diff_paths@.len() as nat,
            match diff {
                Option::Some(d) => Option::Some(d@),
                Option::None => Option::None,
            },
        ),
{
    if git_diff_paths.len() == 0 {
        return String::new();
    }
    match diff {
        Some(d) => {
            let mut out: String = String::from_str("\n");
            out.append("<git_diff>");
            out.append("\n");
            out.append(d.as_str());
            out.append("\n");
            out.append("</git_diff>");
            out.append("\n");
            out
        },
        None => String::new(),
    }
}

/// Parts joined by a separator, no leading or trailing separator.
pub open spec fn joined_sep(rows: Seq<Seq<char>>, sep: Seq<char>) -> Seq<char>
    decreases rows.len(),
{
    if rows.len() == 0 {
        Seq::empty()
    } else if rows.len() == 1 {
        rows[0]
    } else {
        rows[0] + sep + joined_sep(rows.subrange(1, rows.len() as int), sep)
    }
}

/// Joining splits at the last part.
proof fn lemma_joined_sep_snoc(rows: Seq<Seq<char>>, sep: Seq<char>)
    requires
        rows.len() >= 2,
    ensures
        joined_sep(rows, sep) == joined_sep(rows.drop_last(), sep) + sep + rows.last(),
    decreases rows.len(),
{
    if rows.len() == 2 {
        assert(rows.subrange(1, 2) =~= seq![rows[1]]);
        assert(rows.drop_last() =~= seq![rows[0]]);
        assert(joined_sep(seq![rows[1]], sep) == rows[1]);
        assert(joined_sep(seq![rows[0]], sep) == rows[0]);
        assert(joined_sep(rows, sep) =~= joined_sep(rows.drop_last(), sep) + sep + rows.last());
    } else {
        let rest = rows.subrange(1, rows.len() as int);
        lemma_joined_sep_snoc(rest, sep);
        assert(rest.drop_last() =~= rows.drop_last().subrange(1, rows.drop_last().len() as int));
        assert(rest.last() == rows.last());
        assert(joined_sep(rows.drop_last(), sep) == rows[0] + sep + joined_sep(
            rest.drop_last(),
            sep,
        ));
        assert(joined_sep(rows, sep) =~= joined_sep(rows.drop_last(), sep) + sep + rows.last());
    }
}

/// Joins parts with a separator.
pub fn join_with(parts: &Vec<String>, sep: &str) -> (r: String)
    ensures
        r@ == joined_sep(parts@.map_values(|s: String| s@), sep@),
{
    let ghost rows = parts@.map_values(|s: String| s@);
    let mut out = String::new();
    let mut k: usize = 0;
    while k < parts.len()
        invariant
            rows == parts@.map_values(|s: String| s@),
            k <= rows.len(),
            out@ == joined_sep(rows.subrange(0, k as int), sep@),
        decreases rows.len() - k,
    {
        if k > 0 {
            out.append(sep);
        }
        out.append(parts[k].as_str());
        proof {
            if k == 0 {
                assert(rows.subrange(0, 1) =~= seq![rows[0]]);
                assert(joined_sep(seq![rows[0]], sep@) == rows[0]);
                assert(out@ =~= joined_sep(rows.subrange(0, 1), sep@));
            } else {
                lemma_joined_sep_snoc(rows.subrange(0, k + 1), sep@);
                assert(rows.subrange(0, k + 1).drop_last() =~= rows.subrange(0, k as int));
                assert(rows.subrange(0, k + 1).last() == rows[k as int]);
            }
        }
        k = k + 1;
    }
    proof {
        assert(rows.subrange(0, rows.len() as int) =~= rows);
    }
    out
}

/// The web-pages section: saved pages joined by the page separator inside
/// the tags; empty when no pages were loaded.
pub open spec fn web_pages_spec(parts: Seq<Seq<char>>) -> Seq<char> {
    if parts.len() == 0 {
        Seq::empty()
    } else {
        "<web_pages>"@ + "\n"@ + joined_sep(parts, "\n\n* * *\n\n"@) + "\n"@ + "</web_pages>"@
            + "\n"@
    }
}

/// Wraps loaded page contents in the web-pages section.
pub fn build_web_pages_section(parts: &Vec<String>) -> (r: String)
    ensures
        r@ == web_pages_spec(parts@.map_values(|s: String| s@)),
{
    if parts.len() == 0 {
        return String::new();
    }
    let payload = join_with(parts, "\n\n* * *\n\n");
    let mut out: String = String::from_str("<web_pages>");
    out.append("\n");
    out.append(payload.as_str());
    out.append("\n");
    out.append("</web_pages>");
    out.append("\n");
    out
}

/// One wrapped file block of the contents section: header, fenced body.
pub open spec fn file_block_spec(path: Seq<char>, ext: Seq<char>, text: Seq<char>) -> Seq<char> {
    "File: "@ + path + "\n"@ + "```"@ + ext + "\n"@ + text + "```"@
}

/// Wraps one file's text for the contents section.
pub fn wrap_file_block(path: &str, ext: &str, text: &str) -> (r: String)
    ensures
        r@ == file_block_spec(path@, ext@, text@),
{
    let mut out: String = String::from_str("File: ");
    out.append(path);
    out.append("\n");
    out.append("```");
    out.append(ext);
    out.append("\n");
    out.append(text);
    out.append("```");
    out
}

/// The whole payload: tree section, tagged file contents, diff section.
pub open spec fn clipboard_content_spec(
    file_tree: Seq<char>,
    concatenated: Seq<char>,
    git_diff: Seq<char>,
) -> Seq<char> {
    file_tree + "\n"@ + "<file_contents>"@ + "\n"@ + concatenated + "\n"@ + "</file_contents>"@
        + "\n"@ + git_diff + "\n"@
}

/// Assembles the clipboard payload from the already-read file contents,
/// the rendered tree and the diff text.
pub fn build_clipboard_content(
    git_diff_paths: &Vec<String>,
    diff: Option<&String>,
    concatenated_files: &str,
    rendered_tree: &str,
    root: &str,
) -> (r: String)
    ensures
        r@ == clipboard_content_spec(
            file_tree_spec(rendered_tree@, root@),
            concatenated_files@,
            git_diff_spec(
                git_diff_paths@.len() as nat,
                match diff {
                    Option::Some(d) => Option::Some(d@),
                    Option::None => Option::None,
                },
            ),
        ),
{
    let file_tree = build_file_tree(rendered_tree, root);
    let git_diff = build_git_diff(git_diff_paths, diff);
    let mut out = file_tree;
    out.append("\n");
    out.append("<file_contents>");
    out.append("\n");
    out.append(concatenated_files);
    out.append("\n");
    out.append("</file_contents>");
    out.append("\n");
    out.append(git_diff.as_str());
    out.append("\n");
    out
}

/// One formatted entry: name, newline, content, the whole block trimmed.
pub open spec fn entry_block<T: InstructionEntry>(e: T) -> Seq<char> {
    trimmed_of(e.spec_name() + "\n"@ + e.spec_content())
}

/// The formatted entries from the first `k`, in order.
pub open spec fn entry_blocks_upto<T: InstructionEntry>(entries: Seq<T>, k: int) -> Seq<
    Seq<char>,
>
    decreases k,
{
    if k <= 0 {
        Seq::empty()
    } else {
        entry_blocks_upto(entries, k - 1) + seq![entry_block(entries[k - 1])]
    }
}

/// Formats instruction entries: each as its trimmed name-and-content
/// block, blocks joined by blank lines.
pub fn format_instruction_entries<T: InstructionEntry>(entries: &Vec<T>) -> (r: String)
    ensures
        r@ == joined_sep(entry_blocks_upto(entries@, entries@.len() as int), "\n\n"@),
{
    let mut blocks: Vec<String> = Vec::new();
    let mut k: usize = 0;
    while k < entries.len()
        invariant
            k <= entries@.len(),
            blocks@.map_values(|s: String| s@) == entry_blocks_upto(entries@, k as int),
        decreases entries@.len() - k,
    {
        let ghost pre = blocks@.map_values(|s: String| s@);
        let mut raw: String = String::from_str(entries[k].name());
        raw.append("\n");
        raw.append(entries[k].content());
        let block: String = trim_str(raw.as_str()).to_owned();
        blocks.push(block);
        proof {
            assert(blocks@.map_values(|s: String| s@) =~= pre + seq![
                entry_block(entries@[k as int]),
            ]);
        }
        k = k + 1;
    }
    join_with(&blocks, "\n\n")
}

/// The instruction sections: a tagged block for stored instructions and
/// one for user instructions, each present only when non-empty, joined by
/// a blank line.
pub open spec fn instruction_sections_spec(meta: Seq<char>, user: Seq<char>) -> Seq<char> {
    let meta_sec = "<meta_instructions>"@ + "\n"@ + meta + "\n"@ + "</meta_instructions>"@;
    let user_sec = "<user_instructions>"@ + "\n"@ + user + "\n"@ + "</user_instructions>"@;
    if meta.len() > 0 && user.len() > 0 {
        meta_sec + "\n\n"@ + user_sec
    } else if meta.len() > 0 {
        meta_sec
    } else if user.len() > 0 {
        user_sec
    } else {
        Seq::empty()
    }
}

/// Builds the instruction sections from the stored entries the application
/// resolved and the user-supplied entries.
pub fn build_instruction_sections(
    meta_instructions: &Vec<SavedInstruction>,
    instructions: &Vec<Instruction>,
) -> (r: String)
    ensures
        r@ == instruction_sections_spec(
            joined_sep(
                entry_blocks_upto(meta_instructions@, meta_instructions@.len() as int),
                "\n\n"@,
            ),
            joined_sep(entry_blocks_upto(instructions@, instructions@.len() as int), "\n\n"@),
        ),
{
    let meta_section = format_instruction_entries(meta_instructions);
    let user_section = format_instruction_entries(instructions);
    let has_meta = !meta_section.as_str().is_empty();
    let has_user = !user_section.as_str().is_empty();
    if has_meta && has_user {
        let mut out: String = String::from_str("<meta_instructions>");
        out.append("\n");
        out.append(meta_section.as_str());
        out.append("\n");
        out.append("</meta_instructions>");
        out.append("\n\n");
        out.append("<user_instructions>");
        out.append("\n");
        out.append(user_section.as_str());
        out.append("\n");
        out.append("</user_instructions>");
        out
    } else if has_meta {
        let mut out: String = String::from_str("<meta_instructions>");
        out.append("\n");
        out.append(meta_section.as_str());
        out.append("\n");
        out.append("</meta_instructions>");
        out
    } else if has_user {
        let mut out: String = String::from_str("<user_instructions>");
        out.append("\n");
        out.append(user_section.as_str());
        out.append("\n");
        out.append("</user_instructions>");
        out
    } else {
        String::new()
    }
}

} // verus!
