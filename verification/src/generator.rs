//! The pages of the project outline. Filling a node's summary, key files and
//! responsibilities is done by a language model outside this library; the
//! text each node's page gets, and what goes to the model, is made here.
use vstd::prelude::*;
use crate::strs::{join, join_chars, push_all, push_string, sv, to_chars, vv, from_chars};
use crate::llm::{KeyFileContent, NodeContent};
use crate::types::{key_files_view, KeyFile, WikiNode, WikiNodeV};

verus! {

broadcast use vstd::seq_lib::group_seq_properties;

pub open spec fn key_file_line(k: (Seq<char>, Seq<char>)) -> Seq<char> {
    if k.1.len() == 0 {
        "- `"@ + k.0 + "`\n"@
    } else {
        "- `"@ + k.0 + "` — "@ + k.1 + "\n"@
    }
}

pub open spec fn key_file_lines(ks: Seq<(Seq<char>, Seq<char>)>) -> Seq<char>
    decreases ks.len(),
{
    if ks.len() == 0 {
        seq![]
    } else {
        key_file_lines(ks.drop_last()) + key_file_line(ks.last())
    }
}

pub open spec fn bullet_lines(rs: Seq<Seq<char>>) -> Seq<char>
    decreases rs.len(),
{
    if rs.len() == 0 {
        seq![]
    } else {
        bullet_lines(rs.drop_last()) + "- "@ + rs.last() + "\n"@
    }
}

/// Each page as a link to itself.
pub open spec fn page_link_lines(rs: Seq<Seq<char>>) -> Seq<char>
    decreases rs.len(),
{
    if rs.len() == 0 {
        seq![]
    } else {
        page_link_lines(rs.drop_last()) + "- ["@ + rs.last() + "]("@ + rs.last() + ")\n"@
    }
}

pub open spec fn summary_part(v: WikiNodeV) -> Seq<char> {
    "## Summary\n\n"@ + if v.summary.len() == 0 { "TODO\n\n"@ } else { v.summary + "\n\n"@ }
}

pub open spec fn key_files_part(v: WikiNodeV) -> Seq<char> {
    "## Key files\n\n"@ + if v.key_files.len() == 0 { "TODO\n\n"@ } else { key_file_lines(v.key_files) + "\n"@ }
}

pub open spec fn responsibilities_part(v: WikiNodeV) -> Seq<char> {
    "## Responsibilities\n\n"@ + if v.responsibilities.len() == 0 { "TODO\n\n"@ } else { bullet_lines(v.responsibilities) + "\n"@ }
}

pub open spec fn related_part(v: WikiNodeV) -> Seq<char> {
    "## Related\n\n"@ + if v.related.len() == 0 { "None\n\n"@ } else { page_link_lines(v.related) + "\n"@ }
}

pub open spec fn read_next_part(v: WikiNodeV) -> Seq<char> {
    "## Read next\n\n"@ + if v.read_next.len() == 0 { "None\n"@ } else { page_link_lines(v.read_next) }
}

/// The page of a node: its title, then its summary, key files,
/// responsibilities, related pages and pages to read next, each with a
/// placeholder when empty.
pub open spec fn node_markdown(v: WikiNodeV) -> Seq<char> {
    "# "@ + v.title + "\n\n"@ + summary_part(v) + key_files_part(v) + responsibilities_part(v) + related_part(v)
        + read_next_part(v)
}

fn push_lit(t: &mut Vec<char>, s: &str)
    ensures
        final(t)@ == old(t)@ + s@,
{
    push_all(t, &to_chars(s));
}

fn push_key_files(t: &mut Vec<char>, ks: &Vec<KeyFile>)
    ensures
        final(t)@ == old(t)@ + key_file_lines(key_files_view(ks@)),
{
    let ghost kv = key_files_view(ks@);
    let mut i: usize = 0;
    while i < ks.len()
        invariant
            i <= ks@.len(),
            kv == key_files_view(ks@),
            t@ == old(t)@ + key_file_lines(kv.take(i as int)),
        decreases ks@.len() - i,
    {
        assert(kv.take(i + 1).drop_last() =~= kv.take(i as int));
        assert(kv.take(i + 1).last() == (ks@[i as int].path@, ks@[i as int].description@));
        let k = &ks[i];
        let ghost before = t@;
        push_lit(t, "- `");
        push_all(t, &to_chars(k.path.as_str()));
        let d = to_chars(k.description.as_str());
        if d.len() == 0 {
            push_lit(t, "`\n");
        } else {
            push_lit(t, "` — ");
            push_all(t, &d);
            push_lit(t, "\n");
        }
        assert(t@ =~= before + key_file_line(kv[i as int]));
        i = i + 1;
    }
    assert(kv.take(ks@.len() as int) =~= kv);
}

fn push_bullets(t: &mut Vec<char>, rs: &Vec<String>)
    ensures
        final(t)@ == old(t)@ + bullet_lines(sv(rs@)),
{
    let mut i: usize = 0;
    while i < rs.len()
        invariant
            i <= rs@.len(),
            t@ == old(t)@ + bullet_lines(sv(rs@).take(i as int)),
        decreases rs@.len() - i,
    {
        assert(sv(rs@).take(i + 1).drop_last() =~= sv(rs@).take(i as int));
        let ghost before = t@;
        push_lit(t, "- ");
        push_all(t, &to_chars(rs[i].as_str()));
        push_lit(t, "\n");
        assert(t@ =~= before + "- "@ + sv(rs@)[i as int] + "\n"@);
        i = i + 1;
    }
    assert(sv(rs@).take(rs@.len() as int) =~= sv(rs@));
}

fn push_page_links(t: &mut Vec<char>, rs: &Vec<String>)
    ensures
        final(t)@ == old(t)@ + page_link_lines(sv(rs@)),
{
    let mut i: usize = 0;
    while i < rs.len()
        invariant
            i <= rs@.len(),
            t@ == old(t)@ + page_link_lines(sv(rs@).take(i as int)),
        decreases rs@.len() - i,
    {
        assert(sv(rs@).take(i + 1).drop_last() =~= sv(rs@).take(i as int));
        let ghost before = t@;
        let r = to_chars(rs[i].as_str());
        push_lit(t, "- [");
        push_all(t, &r);
        push_lit(t, "](");
        push_all(t, &r);
        push_lit(t, ")\n");
        assert(t@ =~= before + "- ["@ + sv(rs@)[i as int] + "]("@ + sv(rs@)[i as int] + ")\n"@);
        i = i + 1;
    }
    assert(sv(rs@).take(rs@.len() as int) =~= sv(rs@));
}

fn summary_exec(node: &WikiNode) -> (r: Vec<char>)
    ensures
        r@ == summary_part(node@),
{
    let mut t = to_chars("## Summary\n\n");
    let summary = to_chars(node.summary.as_str());
    if summary.len() == 0 {
        push_lit(&mut t, "TODO\n\n");
    } else {
        push_all(&mut t, &summary);
        push_lit(&mut t, "\n\n");
    }
    t
}

fn key_files_exec(node: &WikiNode) -> (r: Vec<char>)
    ensures
        r@ == key_files_part(node@),
{
    let mut t = to_chars("## Key files\n\n");
    if node.key_files.len() == 0 {
        push_lit(&mut t, "TODO\n\n");
    } else {
        push_key_files(&mut t, &node.key_files);
        push_lit(&mut t, "\n");
    }
    t
}

fn responsibilities_exec(node: &WikiNode) -> (r: Vec<char>)
    ensures
        r@ == responsibilities_part(node@),
{
    let mut t = to_chars("## Responsibilities\n\n");
    if node.responsibilities.len() == 0 {
        push_lit(&mut t, "TODO\n\n");
    } else {
        push_bullets(&mut t, &node.responsibilities);
        push_lit(&mut t, "\n");
    }
    t
}

fn related_exec(node: &WikiNode) -> (r: Vec<char>)
    ensures
        r@ == related_part(node@),
{
    let mut t = to_chars("## Related\n\n");
    if node.related.len() == 0 {
        push_lit(&mut t, "None\n\n");
    } else {
        push_page_links(&mut t, &node.related);
        push_lit(&mut t, "\n");
    }
    t
}

fn read_next_exec(node: &WikiNode) -> (r: Vec<char>)
    ensures
        r@ == read_next_part(node@),
{
    let mut t = to_chars("## Read next\n\n");
    if node.read_next.len() == 0 {
        push_lit(&mut t, "None\n");
    } else {
        push_page_links(&mut t, &node.read_next);
    }
    t
}

/// The Markdown page of a node.
pub fn render(node: &WikiNode) -> (r: String)
    ensures
        r@ == node_markdown(node@),
{
    let mut t = to_chars("# ");
    push_all(&mut t, &to_chars(node.title.as_str()));
    push_lit(&mut t, "\n\n");
    push_all(&mut t, &summary_exec(node));
    push_all(&mut t, &key_files_exec(node));
    push_all(&mut t, &responsibilities_exec(node));
    push_all(&mut t, &related_exec(node));
    push_all(&mut t, &read_next_exec(node));
    assert(t@ =~= node_markdown(node@));
    from_chars(&t)
}

// ---------------------------------------------------------------------------
// What goes to the model, and what comes back
// ---------------------------------------------------------------------------

/// The output paths of the other nodes (every node whose path differs from
/// `own`), in node order.
pub open spec fn other_paths(paths: Seq<Seq<char>>, own: Seq<char>) -> Seq<Seq<char>>
    decreases paths.len(),
{
    if paths.len() == 0 {
        seq![]
    } else if paths.last() != own {
        other_paths(paths.drop_last(), own).push(paths.last())
    } else {
        other_paths(paths.drop_last(), own)
    }
}

/// The list of the other nodes that the model is shown: their output paths,
/// one per line.
pub fn sibling_nodes(nodes: &[WikiNode], own: &str) -> (r: String)
    ensures
        r@ == join(other_paths(nodes@.map_values(|n: WikiNode| n.output_path@), own@), "\n"@),
{
    let ghost paths = nodes@.map_values(|n: WikiNode| n.output_path@);
    let mut parts: Vec<Vec<char>> = Vec::new();
    let own_chars = to_chars(own);
    let mut i: usize = 0;
    assert(paths.take(0) =~= Seq::<Seq<char>>::empty());
    while i < nodes.len()
        invariant
            i <= nodes@.len(),
            own_chars@ == own@,
            paths == nodes@.map_values(|n: WikiNode| n.output_path@),
            vv(&parts) == other_paths(paths.take(i as int), own@),
        decreases nodes@.len() - i,
    {
        let p = to_chars(nodes[i].output_path.as_str());
        proof {
            assert(paths.take(i + 1).drop_last() =~= paths.take(i as int));
            assert(paths.take(i + 1).last() == p@);
        }
        if !crate::strs::chars_eq(&p, &own_chars) {
            let ghost before = vv(&parts);
            parts.push(p);
            assert(vv(&parts) =~= before.push(p@));
        }
        i = i + 1;
    }
    assert(paths.take(nodes@.len() as int) =~= paths);
    let sep = to_chars("\n");
    let joined = join_chars(&parts, &sep);
    from_chars(&joined)
}

/// One key file as the model is shown it: a header line with its path, its
/// content, and a blank line.
pub open spec fn file_block_text(path: Seq<char>, content: Seq<char>) -> Seq<char> {
    "--- "@ + path + " ---\n"@ + content + "\n\n"@
}

/// The text of one key file for the model.
pub fn file_block(path: &str, content: &str) -> (r: String)
    ensures
        r@ == file_block_text(path@, content@),
{
    let mut t = to_chars("--- ");
    push_all(&mut t, &to_chars(path));
    push_lit(&mut t, " ---\n");
    push_all(&mut t, &to_chars(content));
    push_lit(&mut t, "\n\n");
    assert(t@ =~= file_block_text(path@, content@));
    from_chars(&t)
}

/// A node after the model's answer: its summary, responsibilities and key
/// files are the answer's; the rest is unchanged.
pub open spec fn with_content(v: WikiNodeV, c: NodeContent) -> WikiNodeV {
    WikiNodeV {
        summary: c.summary@,
        responsibilities: sv(c.responsibilities@),
        key_files: c.key_files@.map_values(|k: KeyFileContent| (k.path@, k.description@)),
        ..v
    }
}

/// Put the model's answer into a node.
pub fn apply_node_content(node: &mut WikiNode, content: NodeContent)
    ensures
        final(node)@ == with_content(old(node)@, content),
{
    let ghost c = content;
    let NodeContent { summary, key_files, responsibilities } = content;
    let mut files: Vec<KeyFile> = Vec::new();
    let mut i: usize = 0;
    while i < key_files.len()
        invariant
            i <= key_files@.len(),
            key_files == c.key_files,
            key_files_view(files@) == key_files@.take(i as int).map_values(|k: KeyFileContent| (k.path@, k.description@)),
        decreases key_files@.len() - i,
    {
        let k = &key_files[i];
        let ghost before = key_files_view(files@);
        files.push(KeyFile { path: k.path.clone(), description: k.description.clone() });
        assert(key_files_view(files@) =~= before.push((k.path@, k.description@)));
        assert(key_files@.take(i + 1).map_values(|k: KeyFileContent| (k.path@, k.description@))
            =~= key_files@.take(i as int).map_values(|k: KeyFileContent| (k.path@, k.description@)).push((k.path@, k.description@)));
        i = i + 1;
    }
    assert(key_files@.take(key_files@.len() as int) =~= key_files@);
    node.summary = summary;
    node.responsibilities = responsibilities;
    node.key_files = files;
}

} // verus!
