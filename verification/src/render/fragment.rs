//! The pages of one note: its entry page, the shell pages of sections split
//! again, and the h2 and h3 fragment pages. Each page carries its text with
//! the wikilinks resolved, a navigation line where it has a parent, and the
//! lists that are generated for it (fragments, backlinks, related pages).
use vstd::prelude::*;
use crate::fragment::{children_view, fragments_view, Fragment, FragmentModel, H3Fragment};
use crate::link::resolver::{Resolver, TargetV};
use crate::link::wikilink::{find_links_spec, resolve_in, rewrite};
use crate::model::Node;
use crate::order::{same_path, same_path_exec};
use crate::paths::{
    fragment_leaf_path, h3_leaf_path, index_md, join2, md_ext, relative, relative_link,
    shell_index_path,
};
use crate::strs::{join, join_chars, push_all, sv, to_chars, vv};

verus! {

broadcast use vstd::seq_lib::group_seq_properties;

/// One rendered page.
pub struct PageRender {
    pub output_path: String,
    pub body: String,
}

/// Page titles by output path, as a map built by inserting in order: a
/// later entry for the same path replaces an earlier one.
pub open spec fn titles_view(t: Seq<(String, String)>) -> Seq<(Seq<char>, Seq<char>)> {
    t.map_values(|e: (String, String)| (e.0@, e.1@))
}

/// The title of page `p`: the last entry for the same path, else the path.
pub open spec fn page_title(titles: Seq<(Seq<char>, Seq<char>)>, p: Seq<char>) -> Seq<char>
    decreases titles.len(),
{
    if titles.len() == 0 {
        p
    } else if same_path(titles.last().0, p) {
        titles.last().1
    } else {
        page_title(titles.drop_last(), p)
    }
}

/// The backlinks of a node, by page.
pub open spec fn backlinks_view(n: Node) -> Seq<(Seq<char>, Seq<Seq<char>>)> {
    n.backlinks@.map_values(|e: (String, Vec<String>)| (e.0@, sv(e.1@)))
}

/// The pages linking to page `p`: the entry for the same path, if any.
pub open spec fn backlinks_of(bl: Seq<(Seq<char>, Seq<Seq<char>>)>, p: Seq<char>) -> Option<Seq<Seq<char>>>
    decreases bl.len(),
{
    if bl.len() == 0 {
        None
    } else if same_path(bl[0].0, p) {
        Some(bl[0].1)
    } else {
        backlinks_of(bl.drop_first(), p)
    }
}

// ---------------------------------------------------------------------------
// Lists
// ---------------------------------------------------------------------------

/// A link to page `to` from page `from`, titled.
pub open spec fn link_item(titles: Seq<(Seq<char>, Seq<char>)>, from: Seq<char>, to: Seq<char>) -> Seq<char> {
    "- ["@ + page_title(titles, to) + "]("@ + relative(from, to) + ")\n"@
}

pub open spec fn link_items(titles: Seq<(Seq<char>, Seq<char>)>, from: Seq<char>, tos: Seq<Seq<char>>) -> Seq<char>
    decreases tos.len(),
{
    if tos.len() == 0 {
        seq![]
    } else {
        link_items(titles, from, tos.drop_last()) + link_item(titles, from, tos.last())
    }
}

/// The backlinks of page `from`, or nothing when there are none.
pub open spec fn backlinks_section(n: Node, titles: Seq<(Seq<char>, Seq<char>)>, from: Seq<char>) -> Seq<char> {
    match backlinks_of(backlinks_view(n), from) {
        Some(v) => if v.len() > 0 { "## Backlinks\n\n"@ + link_items(titles, from, v) } else { seq![] },
        None => seq![],
    }
}

/// The related pages of a note, or nothing when there are none.
pub open spec fn related_section(n: Node, titles: Seq<(Seq<char>, Seq<char>)>, from: Seq<char>) -> Seq<char> {
    if n.related@.len() == 0 {
        seq![]
    } else {
        "## Related\n\n"@ + link_items(titles, from, sv(n.related@))
    }
}

/// The heading of a fragment.
pub open spec fn heading_of(f: FragmentModel) -> Seq<char> {
    match f {
        FragmentModel::H2 { heading, .. } => heading,
        FragmentModel::Shell { heading, .. } => heading,
    }
}

/// The page of a fragment: its leaf page, or a shell's index.
pub open spec fn fragment_target(dir: Seq<char>, f: FragmentModel) -> Seq<char> {
    match f {
        FragmentModel::H2 { slug, .. } => join2(dir, slug + md_ext()),
        FragmentModel::Shell { slug, .. } => join2(join2(dir, slug), index_md()),
    }
}

/// The page of child `c` of the shell `slug`.
pub open spec fn child_target(dir: Seq<char>, slug: Seq<char>, c: (Seq<char>, Seq<char>, Seq<char>)) -> Seq<char> {
    join2(join2(dir, slug), c.1 + md_ext())
}

pub open spec fn fragment_line(from: Seq<char>, dir: Seq<char>, f: FragmentModel) -> Seq<char> {
    "- ["@ + heading_of(f) + "]("@ + relative(from, fragment_target(dir, f)) + ")\n"@
}

pub open spec fn fragment_lines(from: Seq<char>, dir: Seq<char>, fs: Seq<FragmentModel>) -> Seq<char>
    decreases fs.len(),
{
    if fs.len() == 0 {
        seq![]
    } else {
        fragment_lines(from, dir, fs.drop_last()) + fragment_line(from, dir, fs.last())
    }
}

/// The fragments of a split note, listed on its entry page.
pub open spec fn fragments_section(n: Node, from: Seq<char>) -> Seq<char> {
    let fs = fragments_view(n.fragments.fragments@);
    if n.fragments.non_fragmented || fs.len() == 0 {
        seq![]
    } else {
        "## Fragments\n\n"@ + fragment_lines(from, n.entry_dir@, fs)
    }
}

pub open spec fn child_line(from: Seq<char>, dir: Seq<char>, slug: Seq<char>, c: (Seq<char>, Seq<char>, Seq<char>)) -> Seq<char> {
    "- ["@ + c.0 + "]("@ + relative(from, child_target(dir, slug, c)) + ")\n"@
}

pub open spec fn child_lines(from: Seq<char>, dir: Seq<char>, slug: Seq<char>, cs: Seq<(Seq<char>, Seq<char>, Seq<char>)>) -> Seq<char>
    decreases cs.len(),
{
    if cs.len() == 0 {
        seq![]
    } else {
        child_lines(from, dir, slug, cs.drop_last()) + child_line(from, dir, slug, cs.last())
    }
}

/// The children of shell `idx`, listed on the shell page.
pub open spec fn shell_children_section(n: Node, idx: int, from: Seq<char>) -> Seq<char> {
    match fragments_view(n.fragments.fragments@)[idx] {
        FragmentModel::Shell { slug, children, .. } => if children.len() == 0 {
            seq![]
        } else {
            "## Fragments\n\n"@ + child_lines(from, n.entry_dir@, slug, children)
        },
        _ => seq![],
    }
}

// ---------------------------------------------------------------------------
// Navigation
// ---------------------------------------------------------------------------

pub open spec fn nav_link(label: Seq<char>, title: Seq<char>, link: Seq<char>) -> Seq<char> {
    label + ": ["@ + title + "]("@ + link + ")"@
}

/// The navigation line of h2 fragment `idx`: its note, and the fragments
/// before and after it.
pub open spec fn h2_nav(n: Node, idx: int, page: Seq<char>) -> Seq<char> {
    let fs = fragments_view(n.fragments.fragments@);
    let dir = n.entry_dir@;
    let parent = seq![nav_link("Parent"@, n.title@, relative(page, n.output_path@))];
    let prev = if idx > 0 {
        seq![nav_link("Prev"@, heading_of(fs[idx - 1]), relative(page, fragment_target(dir, fs[idx - 1])))]
    } else {
        seq![]
    };
    let next = if idx + 1 < fs.len() {
        seq![nav_link("Next"@, heading_of(fs[idx + 1]), relative(page, fragment_target(dir, fs[idx + 1])))]
    } else {
        seq![]
    };
    "> "@ + join(parent + prev + next, " · "@)
}

/// The navigation line of a shell page: its note.
pub open spec fn shell_nav(n: Node, page: Seq<char>) -> Seq<char> {
    "> "@ + nav_link("Parent"@, n.title@, relative(page, n.output_path@))
}

/// The navigation line of child `cidx` of shell `idx`: the shell, and the
/// children before and after it.
pub open spec fn h3_nav(n: Node, idx: int, cidx: int, page: Seq<char>) -> Seq<char> {
    let dir = n.entry_dir@;
    match fragments_view(n.fragments.fragments@)[idx] {
        FragmentModel::Shell { heading, slug, children, .. } => {
            let parent = seq![nav_link("Parent"@, heading, relative(page, join2(join2(dir, slug), index_md())))];
            let prev = if cidx > 0 {
                seq![nav_link("Prev"@, children[cidx - 1].0, relative(page, child_target(dir, slug, children[cidx - 1])))]
            } else {
                seq![]
            };
            let next = if cidx + 1 < children.len() {
                seq![nav_link("Next"@, children[cidx + 1].0, relative(page, child_target(dir, slug, children[cidx + 1])))]
            } else {
                seq![]
            };
            "> "@ + join(parent + prev + next, " · "@)
        },
        _ => seq![],
    }
}

// ---------------------------------------------------------------------------
// Assembling a page
// ---------------------------------------------------------------------------

/// A text made to end with a line break.
pub open spec fn with_nl(s: Seq<char>) -> Seq<char> {
    if s.len() > 0 && s.last() == '\n' {
        s
    } else {
        s.push('\n')
    }
}

/// The parts that are not empty, in order.
pub open spec fn non_empty(ps: Seq<Seq<char>>) -> Seq<Seq<char>>
    decreases ps.len(),
{
    if ps.len() == 0 {
        seq![]
    } else if ps.last().len() > 0 {
        non_empty(ps.drop_last()).push(ps.last())
    } else {
        non_empty(ps.drop_last())
    }
}

/// A page: the navigation line with a rule right under it, the main text, then, after a
/// rule, the generated lists that are not empty, a blank line apart.
pub open spec fn assemble(head: Option<Seq<char>>, main: Seq<char>, autos: Seq<Seq<char>>) -> Seq<char> {
    let a = match head {
        Some(h) => with_nl(h) + "---\n\n"@,
        None => seq![],
    };
    let kept = non_empty(autos);
    if kept.len() == 0 {
        a + main
    } else {
        with_nl(a + main) + "\n---\n\n"@ + join(kept, "\n"@)
    }
}

/// A text with its wikilinks resolved, as seen from page `from` of the note
/// whose entry page is `anchor`.
pub open spec fn resolved(text: Seq<char>, ts: Seq<TargetV>, from: Seq<char>, anchor: Seq<char>) -> Seq<char> {
    rewrite(text, find_links_spec(text), 0, ts, from, anchor)
}

// ---------------------------------------------------------------------------
// Exec helpers
// ---------------------------------------------------------------------------

fn push_lit(t: &mut Vec<char>, s: &str)
    ensures
        final(t)@ == old(t)@ + s@,
{
    push_all(t, &to_chars(s));
}

fn page_title_exec(titles: &Vec<(String, String)>, p: &str) -> (r: Vec<char>)
    ensures
        r@ == page_title(titles_view(titles@), p@),
{
    let ghost tv = titles_view(titles@);
    let mut k = titles.len();
    assert(tv.take(k as int) =~= tv);
    while k > 0
        invariant
            k <= titles@.len(),
            tv == titles_view(titles@),
            page_title(tv, p@) == page_title(tv.take(k as int), p@),
        decreases k,
    {
        let ghost t = tv.take(k as int);
        assert(t.last() == (titles@[k - 1].0@, titles@[k - 1].1@));
        assert(t.drop_last() =~= tv.take(k - 1));
        if same_path_exec(titles[k - 1].0.as_str(), p) {
            return to_chars(titles[k - 1].1.as_str());
        }
        k = k - 1;
    }
    to_chars(p)
}

fn push_link_item(t: &mut Vec<char>, titles: &Vec<(String, String)>, from: &str, to: &str)
    ensures
        final(t)@ == old(t)@ + link_item(titles_view(titles@), from@, to@),
{
    push_lit(t, "- [");
    push_all(t, &page_title_exec(titles, to));
    push_lit(t, "](");
    push_all(t, &to_chars(relative_link(from, to).as_str()));
    push_lit(t, ")\n");
    assert(t@ =~= old(t)@ + link_item(titles_view(titles@), from@, to@));
}

fn push_link_items(t: &mut Vec<char>, titles: &Vec<(String, String)>, from: &str, tos: &Vec<String>)
    ensures
        final(t)@ == old(t)@ + link_items(titles_view(titles@), from@, sv(tos@)),
{
    let mut i: usize = 0;
    while i < tos.len()
        invariant
            i <= tos@.len(),
            t@ == old(t)@ + link_items(titles_view(titles@), from@, sv(tos@).take(i as int)),
        decreases tos@.len() - i,
    {
        assert(sv(tos@).take(i + 1).drop_last() =~= sv(tos@).take(i as int));
        push_link_item(t, titles, from, tos[i].as_str());
        i = i + 1;
    }
    assert(sv(tos@).take(tos@.len() as int) =~= sv(tos@));
}

fn backlinks_index(n: &Node, from: &str) -> (r: Option<usize>)
    ensures
        match r {
            Some(k) => k < n.backlinks@.len() && backlinks_of(backlinks_view(*n), from@) == Some(sv(n.backlinks@[k as int].1@)),
            None => backlinks_of(backlinks_view(*n), from@) is None,
        },
{
    let ghost bl = backlinks_view(*n);
    let mut k: usize = 0;
    assert(bl.skip(0) =~= bl);
    while k < n.backlinks.len()
        invariant
            k <= n.backlinks@.len(),
            bl == backlinks_view(*n),
            backlinks_of(bl, from@) == backlinks_of(bl.skip(k as int), from@),
        decreases n.backlinks@.len() - k,
    {
        let ghost rest = bl.skip(k as int);
        assert(rest[0] == (n.backlinks@[k as int].0@, sv(n.backlinks@[k as int].1@)));
        assert(rest.drop_first() =~= bl.skip(k + 1));
        if same_path_exec(n.backlinks[k].0.as_str(), from) {
            return Some(k);
        }
        k = k + 1;
    }
    assert(bl.skip(k as int) =~= Seq::<(Seq<char>, Seq<Seq<char>>)>::empty());
    None
}

fn backlinks_section_exec(n: &Node, titles: &Vec<(String, String)>, from: &str) -> (r: Vec<char>)
    ensures
        r@ == backlinks_section(*n, titles_view(titles@), from@),
{
    let mut t: Vec<char> = Vec::new();
    match backlinks_index(n, from) {
        Some(k) => {
            let links = &n.backlinks[k].1;
            if links.len() > 0 {
                push_lit(&mut t, "## Backlinks\n\n");
                push_link_items(&mut t, titles, from, links);
            }
        },
        None => {},
    }
    assert(t@ =~= backlinks_section(*n, titles_view(titles@), from@));
    t
}

fn related_section_exec(n: &Node, titles: &Vec<(String, String)>, from: &str) -> (r: Vec<char>)
    ensures
        r@ == related_section(*n, titles_view(titles@), from@),
{
    let mut t: Vec<char> = Vec::new();
    if n.related.len() > 0 {
        push_lit(&mut t, "## Related\n\n");
        push_link_items(&mut t, titles, from, &n.related);
    }
    assert(t@ =~= related_section(*n, titles_view(titles@), from@));
    t
}

fn fragment_target_exec(dir: &str, f: &Fragment) -> (r: String)
    ensures
        r@ == fragment_target(dir@, f@),
{
    match f {
        Fragment::H2 { slug, .. } => fragment_leaf_path(dir, slug.as_str()),
        Fragment::Shell { slug, .. } => shell_index_path(dir, slug.as_str()),
    }
}

fn fragments_section_exec(n: &Node, from: &str) -> (r: Vec<char>)
    ensures
        r@ == fragments_section(*n, from@),
{
    let mut t: Vec<char> = Vec::new();
    let fs = &n.fragments.fragments;
    let ghost fv = fragments_view(fs@);
    if n.fragments.non_fragmented || fs.len() == 0 {
        assert(t@ =~= fragments_section(*n, from@));
        return t;
    }
    push_lit(&mut t, "## Fragments\n\n");
    let ghost head = t@;
    let mut i: usize = 0;
    while i < fs.len()
        invariant
            i <= fs@.len(),
            fv == fragments_view(fs@),
            t@ == head + fragment_lines(from@, n.entry_dir@, fv.take(i as int)),
        decreases fs@.len() - i,
    {
        assert(fv.take(i + 1).drop_last() =~= fv.take(i as int));
        assert(fv.take(i + 1).last() == fs@[i as int]@);
        let f = &fs[i];
        let ghost before = t@;
        push_lit(&mut t, "- [");
        push_all(&mut t, &to_chars(f.heading()));
        push_lit(&mut t, "](");
        let target = fragment_target_exec(n.entry_dir.as_str(), f);
        push_all(&mut t, &to_chars(relative_link(from, target.as_str()).as_str()));
        push_lit(&mut t, ")\n");
        assert(f.heading_spec() == heading_of(f@));
        assert(t@ =~= before + fragment_line(from@, n.entry_dir@, f@));
        i = i + 1;
    }
    assert(fv.take(fs@.len() as int) =~= fv);
    t
}

fn shell_children_section_exec(n: &Node, idx: usize, from: &str) -> (r: Vec<char>)
    requires
        idx < n.fragments.fragments@.len(),
    ensures
        r@ == shell_children_section(*n, idx as int, from@),
{
    let mut t: Vec<char> = Vec::new();
    assert(fragments_view(n.fragments.fragments@)[idx as int] == n.fragments.fragments@[idx as int]@);
    match &n.fragments.fragments[idx] {
        Fragment::Shell { slug, children, .. } => {
            let ghost cv = children_view(children@);
            if children.len() == 0 {
                return t;
            }
            push_lit(&mut t, "## Fragments\n\n");
            let ghost head = t@;
            let mut i: usize = 0;
            while i < children.len()
                invariant
                    i <= children@.len(),
                    cv == children_view(children@),
                    t@ == head + child_lines(from@, n.entry_dir@, slug@, cv.take(i as int)),
                decreases children@.len() - i,
            {
                assert(cv.take(i + 1).drop_last() =~= cv.take(i as int));
                assert(cv.take(i + 1).last() == children@[i as int]@);
                let c = &children[i];
                let ghost before = t@;
                push_lit(&mut t, "- [");
                push_all(&mut t, &to_chars(c.heading.as_str()));
                push_lit(&mut t, "](");
                let target = h3_leaf_path(n.entry_dir.as_str(), slug.as_str(), c.slug.as_str());
                push_all(&mut t, &to_chars(relative_link(from, target.as_str()).as_str()));
                push_lit(&mut t, ")\n");
                assert(t@ =~= before + child_line(from@, n.entry_dir@, slug@, c@));
                i = i + 1;
            }
            assert(cv.take(children@.len() as int) =~= cv);
        },
        Fragment::H2 { .. } => {},
    }
    t
}

fn nav_link_exec(label: &str, title: &[char], link: &str) -> (r: Vec<char>)
    ensures
        r@ == nav_link(label@, title@, link@),
{
    let mut t = to_chars(label);
    push_lit(&mut t, ": [");
    push_all(&mut t, title);
    push_lit(&mut t, "](");
    push_all(&mut t, &to_chars(link));
    push_lit(&mut t, ")");
    t
}

fn nav_line(parts: &Vec<Vec<char>>) -> (r: Vec<char>)
    ensures
        r@ == "> "@ + join(vv(parts), " · "@),
{
    let mut t = to_chars("> ");
    push_all(&mut t, &join_chars(parts, &to_chars(" · ")));
    t
}

fn push_part(parts: &mut Vec<Vec<char>>, x: Vec<char>)
    ensures
        vv(final(parts)) == vv(old(parts)).push(x@),
{
    let ghost before = vv(parts);
    parts.push(x);
    assert(vv(parts) =~= before.push(x@));
}

fn h2_nav_exec(n: &Node, idx: usize, page: &str) -> (r: Vec<char>)
    requires
        idx < n.fragments.fragments@.len(),
    ensures
        r@ == h2_nav(*n, idx as int, page@),
{
    let fs = &n.fragments.fragments;
    let ghost fv = fragments_view(fs@);
    let dir = n.entry_dir.as_str();
    let mut parts: Vec<Vec<char>> = Vec::new();
    let parent_link = relative_link(page, n.output_path.as_str());
    push_part(&mut parts, nav_link_exec("Parent", &to_chars(n.title.as_str()), parent_link.as_str()));
    let ghost p1 = vv(&parts);
    if idx > 0 {
        let prev = &fs[idx - 1];
        assert(fv[idx - 1] == prev@);
        assert(prev.heading_spec() == heading_of(prev@));
        let target = fragment_target_exec(dir, prev);
        let link = relative_link(page, target.as_str());
        push_part(&mut parts, nav_link_exec("Prev", &to_chars(prev.heading()), link.as_str()));
    }
    let ghost p2 = vv(&parts);
    if fs.len() - idx > 1 {
        let next = &fs[idx + 1];
        assert(fv[idx + 1] == next@);
        assert(next.heading_spec() == heading_of(next@));
        let target = fragment_target_exec(dir, next);
        let link = relative_link(page, target.as_str());
        push_part(&mut parts, nav_link_exec("Next", &to_chars(next.heading()), link.as_str()));
    }
    proof {
        let parent = seq![nav_link("Parent"@, n.title@, relative(page@, n.output_path@))];
        let prev = if idx > 0 {
            seq![nav_link("Prev"@, heading_of(fv[idx - 1]), relative(page@, fragment_target(n.entry_dir@, fv[idx - 1])))]
        } else {
            Seq::<Seq<char>>::empty()
        };
        let next = if idx + 1 < fv.len() {
            seq![nav_link("Next"@, heading_of(fv[idx + 1]), relative(page@, fragment_target(n.entry_dir@, fv[idx + 1])))]
        } else {
            Seq::<Seq<char>>::empty()
        };
        assert(p1 =~= parent);
        assert(p2 =~= parent + prev);
        assert(vv(&parts) =~= parent + prev + next);
    }
    nav_line(&parts)
}

fn shell_nav_exec(n: &Node, page: &str) -> (r: Vec<char>)
    ensures
        r@ == shell_nav(*n, page@),
{
    let link = relative_link(page, n.output_path.as_str());
    let mut t = to_chars("> ");
    push_all(&mut t, &nav_link_exec("Parent", &to_chars(n.title.as_str()), link.as_str()));
    t
}

/// Child `cidx` of shell `idx` exists.
pub open spec fn is_child_of(n: Node, idx: int, cidx: int) -> bool {
    0 <= idx < n.fragments.fragments@.len() && match fragments_view(n.fragments.fragments@)[idx] {
        FragmentModel::Shell { children, .. } => 0 <= cidx < children.len(),
        _ => false,
    }
}

fn h3_nav_exec(n: &Node, idx: usize, cidx: usize, page: &str) -> (r: Vec<char>)
    requires
        is_child_of(*n, idx as int, cidx as int),
    ensures
        r@ == h3_nav(*n, idx as int, cidx as int, page@),
{
    let ghost fv = fragments_view(n.fragments.fragments@);
    assert(fv[idx as int] == n.fragments.fragments@[idx as int]@);
    let dir = n.entry_dir.as_str();
    match &n.fragments.fragments[idx] {
        Fragment::Shell { heading, slug, children, .. } => {
            let ghost cv = children_view(children@);
            let mut parts: Vec<Vec<char>> = Vec::new();
            let shell = shell_index_path(dir, slug.as_str());
            let parent_link = relative_link(page, shell.as_str());
            push_part(&mut parts, nav_link_exec("Parent", &to_chars(heading.as_str()), parent_link.as_str()));
            let ghost p1 = vv(&parts);
            if cidx > 0 {
                let prev = &children[cidx - 1];
                assert(cv[cidx - 1] == prev@);
                let target = h3_leaf_path(dir, slug.as_str(), prev.slug.as_str());
                let link = relative_link(page, target.as_str());
                push_part(&mut parts, nav_link_exec("Prev", &to_chars(prev.heading.as_str()), link.as_str()));
            }
            let ghost p2 = vv(&parts);
            if children.len() - cidx > 1 {
                let next = &children[cidx + 1];
                assert(cv[cidx + 1] == next@);
                let target = h3_leaf_path(dir, slug.as_str(), next.slug.as_str());
                let link = relative_link(page, target.as_str());
                push_part(&mut parts, nav_link_exec("Next", &to_chars(next.heading.as_str()), link.as_str()));
            }
            proof {
                let d = n.entry_dir@;
                let parent = seq![nav_link("Parent"@, heading@, relative(page@, join2(join2(d, slug@), index_md())))];
                let prev = if cidx > 0 {
                    seq![nav_link("Prev"@, cv[cidx - 1].0, relative(page@, child_target(d, slug@, cv[cidx - 1])))]
                } else {
                    Seq::<Seq<char>>::empty()
                };
                let next = if cidx + 1 < cv.len() {
                    seq![nav_link("Next"@, cv[cidx + 1].0, relative(page@, child_target(d, slug@, cv[cidx + 1])))]
                } else {
                    Seq::<Seq<char>>::empty()
                };
                assert(p1 =~= parent);
                assert(p2 =~= parent + prev);
                assert(vv(&parts) =~= parent + prev + next);
            }
            nav_line(&parts)
        },
        Fragment::H2 { .. } => Vec::new(),
    }
}

fn with_nl_exec(t: &mut Vec<char>)
    ensures
        final(t)@ == with_nl(old(t)@),
{
    if t.len() == 0 || t[t.len() - 1] != '\n' {
        t.push('\n');
    }
}

fn non_empty_exec(ps: &Vec<Vec<char>>) -> (r: Vec<Vec<char>>)
    ensures
        vv(&r) == non_empty(vv(ps)),
{
    let mut out: Vec<Vec<char>> = Vec::new();
    let mut i: usize = 0;
    while i < ps.len()
        invariant
            i <= ps@.len(),
            vv(&out) == non_empty(vv(ps).take(i as int)),
        decreases ps@.len() - i,
    {
        assert(vv(ps).take(i + 1).drop_last() =~= vv(ps).take(i as int));
        assert(vv(ps).take(i + 1).last() == ps@[i as int]@);
        if ps[i].len() > 0 {
            push_part(&mut out, ps[i].clone());
        }
        i = i + 1;
    }
    assert(vv(ps).take(ps@.len() as int) =~= vv(ps));
    out
}

pub open spec fn opt_chars(o: Option<Vec<char>>) -> Option<Seq<char>> {
    match o {
        Some(v) => Some(v@),
        None => None,
    }
}

fn assemble_exec(head: Option<Vec<char>>, main: &[char], autos: &Vec<Vec<char>>) -> (r: Vec<char>)
    ensures
        r@ == assemble(opt_chars(head), main@, vv(autos)),
{
    let kept = non_empty_exec(autos);
    let mut t: Vec<char> = Vec::new();
    match head {
        Some(h) => {
            push_all(&mut t, &h);
            with_nl_exec(&mut t);
            push_lit(&mut t, "---\n\n");
        },
        None => {},
    }
    push_all(&mut t, main);
    if kept.len() > 0 {
        with_nl_exec(&mut t);
        push_lit(&mut t, "\n---\n\n");
        let sep = ['\n'];
        assert(sep@ =~= "\n"@) by { reveal_strlit("\n"); }
        push_all(&mut t, &join_chars(&kept, &sep));
    }
    assert(t@ =~= assemble(opt_chars(head), main@, vv(autos)));
    t
}

fn two(a: Vec<char>, b: Vec<char>) -> (r: Vec<Vec<char>>)
    ensures
        vv(&r) == seq![a@, b@],
{
    let mut r: Vec<Vec<char>> = Vec::new();
    push_part(&mut r, a);
    push_part(&mut r, b);
    assert(vv(&r) =~= seq![a@, b@]);
    r
}

// ---------------------------------------------------------------------------
// Pages
// ---------------------------------------------------------------------------

/// The entry page: the preface, then the fragments, backlinks and related pages.
pub open spec fn entry_text(n: Node, titles: Seq<(Seq<char>, Seq<char>)>, ts: Seq<TargetV>) -> Seq<char> {
    let out = n.output_path@;
    assemble(None, resolved(n.fragments.preface@, ts, out, out),
        seq![fragments_section(n, out), backlinks_section(n, titles, out), related_section(n, titles, out)])
}

/// The page of h2 fragment `idx`, at `page`.
pub open spec fn h2_text(n: Node, idx: int, page: Seq<char>, titles: Seq<(Seq<char>, Seq<char>)>, ts: Seq<TargetV>) -> Seq<char> {
    match fragments_view(n.fragments.fragments@)[idx] {
        FragmentModel::H2 { body, .. } => assemble(Some(h2_nav(n, idx, page)), resolved(body, ts, page, n.output_path@),
            seq![backlinks_section(n, titles, page)]),
        _ => seq![],
    }
}

/// The shell page of fragment `idx`, at `page`.
pub open spec fn shell_text(n: Node, idx: int, page: Seq<char>, titles: Seq<(Seq<char>, Seq<char>)>, ts: Seq<TargetV>) -> Seq<char> {
    match fragments_view(n.fragments.fragments@)[idx] {
        FragmentModel::Shell { preface, .. } => assemble(Some(shell_nav(n, page)), resolved(preface, ts, page, n.output_path@),
            seq![shell_children_section(n, idx, page), backlinks_section(n, titles, page)]),
        _ => seq![],
    }
}

/// The page of child `cidx` of shell `idx`, at `page`.
pub open spec fn h3_text(n: Node, idx: int, cidx: int, page: Seq<char>, titles: Seq<(Seq<char>, Seq<char>)>, ts: Seq<TargetV>) -> Seq<char> {
    match fragments_view(n.fragments.fragments@)[idx] {
        FragmentModel::Shell { children, .. } => assemble(Some(h3_nav(n, idx, cidx, page)), resolved(children[cidx].2, ts, page, n.output_path@),
            seq![backlinks_section(n, titles, page)]),
        _ => seq![],
    }
}

/// The pages of fragment `idx`: its leaf page, or its shell page followed
/// by its children's pages.
pub open spec fn fragment_renders(n: Node, titles: Seq<(Seq<char>, Seq<char>)>, ts: Seq<TargetV>, idx: int) -> Seq<(Seq<char>, Seq<char>)> {
    let dir = n.entry_dir@;
    match fragments_view(n.fragments.fragments@)[idx] {
        FragmentModel::H2 { slug, .. } => {
            let p = join2(dir, slug + md_ext());
            seq![(p, h2_text(n, idx, p, titles, ts))]
        },
        FragmentModel::Shell { slug, children, .. } => {
            let sp = join2(join2(dir, slug), index_md());
            seq![(sp, shell_text(n, idx, sp, titles, ts))] + Seq::new(children.len(), |c: int|
                (child_target(dir, slug, children[c]), h3_text(n, idx, c, child_target(dir, slug, children[c]), titles, ts)))
        },
    }
}

/// The pages of the first `k` fragments.
pub open spec fn renders_upto(n: Node, titles: Seq<(Seq<char>, Seq<char>)>, ts: Seq<TargetV>, k: int) -> Seq<(Seq<char>, Seq<char>)>
    decreases k,
{
    if k <= 0 {
        seq![]
    } else {
        renders_upto(n, titles, ts, k - 1) + fragment_renders(n, titles, ts, k - 1)
    }
}

/// All pages of a note, as path and text: the entry page, then each
/// fragment's pages in order.
pub open spec fn node_pages(n: Node, titles: Seq<(Seq<char>, Seq<char>)>, ts: Seq<TargetV>) -> Seq<(Seq<char>, Seq<char>)> {
    seq![(n.output_path@, entry_text(n, titles, ts))] + renders_upto(n, titles, ts, n.fragments.fragments@.len() as int)
}

pub open spec fn renders_view(v: Seq<PageRender>) -> Seq<(Seq<char>, Seq<char>)> {
    v.map_values(|p: PageRender| (p.output_path@, p.body@))
}

fn entry_text_exec(n: &Node, titles: &Vec<(String, String)>, resolver: &Resolver) -> (r: Vec<char>)
    ensures
        r@ == entry_text(*n, titles_view(titles@), resolver@),
{
    let out = n.output_path.as_str();
    let (preface, _, _) = resolve_in(n.fragments.preface.as_str(), out, out, resolver);
    let mut autos: Vec<Vec<char>> = Vec::new();
    push_part(&mut autos, fragments_section_exec(n, out));
    push_part(&mut autos, backlinks_section_exec(n, titles, out));
    push_part(&mut autos, related_section_exec(n, titles, out));
    let r = assemble_exec(None, &to_chars(preface.as_str()), &autos);
    assert(vv(&autos) =~= seq![fragments_section(*n, out@), backlinks_section(*n, titles_view(titles@), out@), related_section(*n, titles_view(titles@), out@)]);
    r
}

fn h2_text_exec(n: &Node, idx: usize, page: &str, titles: &Vec<(String, String)>, resolver: &Resolver) -> (r: Vec<char>)
    requires
        idx < n.fragments.fragments@.len(),
    ensures
        r@ == h2_text(*n, idx as int, page@, titles_view(titles@), resolver@),
{
    assert(fragments_view(n.fragments.fragments@)[idx as int] == n.fragments.fragments@[idx as int]@);
    match &n.fragments.fragments[idx] {
        Fragment::H2 { body, .. } => {
            let (text, _, _) = resolve_in(body.as_str(), page, n.output_path.as_str(), resolver);
            let mut autos: Vec<Vec<char>> = Vec::new();
            push_part(&mut autos, backlinks_section_exec(n, titles, page));
            assert(vv(&autos) =~= seq![backlinks_section(*n, titles_view(titles@), page@)]);
            assemble_exec(Some(h2_nav_exec(n, idx, page)), &to_chars(text.as_str()), &autos)
        },
        Fragment::Shell { .. } => Vec::new(),
    }
}

fn shell_text_exec(n: &Node, idx: usize, page: &str, titles: &Vec<(String, String)>, resolver: &Resolver) -> (r: Vec<char>)
    requires
        idx < n.fragments.fragments@.len(),
    ensures
        r@ == shell_text(*n, idx as int, page@, titles_view(titles@), resolver@),
{
    assert(fragments_view(n.fragments.fragments@)[idx as int] == n.fragments.fragments@[idx as int]@);
    match &n.fragments.fragments[idx] {
        Fragment::Shell { preface, .. } => {
            let (text, _, _) = resolve_in(preface.as_str(), page, n.output_path.as_str(), resolver);
            let autos = two(shell_children_section_exec(n, idx, page), backlinks_section_exec(n, titles, page));
            assemble_exec(Some(shell_nav_exec(n, page)), &to_chars(text.as_str()), &autos)
        },
        Fragment::H2 { .. } => Vec::new(),
    }
}

fn h3_text_exec(n: &Node, idx: usize, cidx: usize, page: &str, titles: &Vec<(String, String)>, resolver: &Resolver) -> (r: Vec<char>)
    requires
        is_child_of(*n, idx as int, cidx as int),
    ensures
        r@ == h3_text(*n, idx as int, cidx as int, page@, titles_view(titles@), resolver@),
{
    assert(fragments_view(n.fragments.fragments@)[idx as int] == n.fragments.fragments@[idx as int]@);
    match &n.fragments.fragments[idx] {
        Fragment::Shell { children, .. } => {
            assert(children_view(children@)[cidx as int] == children@[cidx as int]@);
            let (text, _, _) = resolve_in(children[cidx].body.as_str(), page, n.output_path.as_str(), resolver);
            let mut autos: Vec<Vec<char>> = Vec::new();
            push_part(&mut autos, backlinks_section_exec(n, titles, page));
            assert(vv(&autos) =~= seq![backlinks_section(*n, titles_view(titles@), page@)]);
            assemble_exec(Some(h3_nav_exec(n, idx, cidx, page)), &to_chars(text.as_str()), &autos)
        },
        Fragment::H2 { .. } => Vec::new(),
    }
}

fn push_render(out: &mut Vec<PageRender>, p: PageRender)
    ensures
        renders_view(final(out)@) == renders_view(old(out)@).push((p.output_path@, p.body@)),
{
    let ghost before = renders_view(out@);
    out.push(p);
    assert(renders_view(out@) =~= before.push((p.output_path@, p.body@)));
}

/// The pages of fragment `idx`, appended.
fn push_fragment_renders(out: &mut Vec<PageRender>, n: &Node, idx: usize, titles: &Vec<(String, String)>, resolver: &Resolver)
    requires
        idx < n.fragments.fragments@.len(),
    ensures
        renders_view(final(out)@) == renders_view(old(out)@) + fragment_renders(*n, titles_view(titles@), resolver@, idx as int),
{
    let ghost tv = titles_view(titles@);
    let ghost fv = fragments_view(n.fragments.fragments@);
    assert(fv[idx as int] == n.fragments.fragments@[idx as int]@);
    let dir = n.entry_dir.as_str();
    match &n.fragments.fragments[idx] {
        Fragment::H2 { slug, .. } => {
            let path = fragment_leaf_path(dir, slug.as_str());
            let body = h2_text_exec(n, idx, path.as_str(), titles, resolver);
            let ghost before = renders_view(out@);
            push_render(out, PageRender { output_path: path, body: crate::strs::from_chars(&body) });
            assert(renders_view(out@) =~= before + fragment_renders(*n, tv, resolver@, idx as int));
        },
        Fragment::Shell { heading, slug, preface, children } => {
            let ghost cv = children_view(children@);
            assert(fv[idx as int] == FragmentModel::Shell { heading: heading@, slug: slug@, preface: preface@, children: cv });
            let ghost before = renders_view(out@);
            let shell_path = shell_index_path(dir, slug.as_str());
            let shell_body = shell_text_exec(n, idx, shell_path.as_str(), titles, resolver);
            push_render(out, PageRender { output_path: shell_path, body: crate::strs::from_chars(&shell_body) });
            let ghost sp = join2(join2(n.entry_dir@, slug@), index_md());
            let ghost first = seq![(sp, shell_text(*n, idx as int, sp, tv, resolver@))];
            let ghost kids = Seq::new(cv.len(), |c: int|
                (child_target(n.entry_dir@, slug@, cv[c]), h3_text(*n, idx as int, c, child_target(n.entry_dir@, slug@, cv[c]), tv, resolver@)));
            assert(renders_view(out@) == before + first);
            let mut c: usize = 0;
            while c < children.len()
                invariant
                    c <= children@.len(),
                    idx < n.fragments.fragments@.len(),
                    fv == fragments_view(n.fragments.fragments@),
                    fv[idx as int] == n.fragments.fragments@[idx as int]@,
                    fv[idx as int] == (FragmentModel::Shell { heading: heading@, slug: slug@, preface: preface@, children: cv }),
                    cv == children_view(children@),
                    kids.len() == cv.len(),
                    forall|m: int| 0 <= m < cv.len() ==> #[trigger] kids[m] == (child_target(n.entry_dir@, slug@, cv[m]), h3_text(*n, idx as int, m, child_target(n.entry_dir@, slug@, cv[m]), tv, resolver@)),
                    tv == titles_view(titles@),
                    dir@ == n.entry_dir@,
                    renders_view(out@) == before + first + kids.take(c as int),
                decreases children@.len() - c,
            {
                let child = &children[c];
                assert(cv[c as int] == child@);
                let path = h3_leaf_path(dir, slug.as_str(), child.slug.as_str());
                let body = h3_text_exec(n, idx, c, path.as_str(), titles, resolver);
                let ghost b2 = renders_view(out@);
                push_render(out, PageRender { output_path: path, body: crate::strs::from_chars(&body) });
                assert(kids.take(c + 1) =~= kids.take(c as int).push(kids[c as int]));
                c = c + 1;
            }
            assert(kids.take(cv.len() as int) =~= kids);
            assert(renders_view(out@) =~= before + fragment_renders(*n, tv, resolver@, idx as int));
        },
    }
}

proof fn lemma_renders_step(n: Node, titles: Seq<(Seq<char>, Seq<char>)>, ts: Seq<TargetV>, k: int)
    requires
        k >= 0,
    ensures
        renders_upto(n, titles, ts, k + 1) == renders_upto(n, titles, ts, k) + fragment_renders(n, titles, ts, k),
{
}

/// All pages of one note: the entry page, then for each fragment its leaf
/// page, or its shell page followed by its children's pages. `titles` gives
/// the titles of linked pages by path; `resolver` resolves the wikilinks.
#[verifier::spinoff_prover]
pub fn render_pages(node: &Node, titles: &Vec<(String, String)>, resolver: &Resolver) -> (r: Vec<PageRender>)
    ensures
        renders_view(r@) == node_pages(*node, titles_view(titles@), resolver@),
{
    let mut out: Vec<PageRender> = Vec::new();
    let entry = entry_text_exec(node, titles, resolver);
    push_render(&mut out, PageRender { output_path: node.output_path.clone(), body: crate::strs::from_chars(&entry) });
    let ghost head = renders_view(out@);
    let mut i: usize = 0;
    while i < node.fragments.fragments.len()
        invariant
            i <= node.fragments.fragments@.len(),
            head == seq![(node.output_path@, entry_text(*node, titles_view(titles@), resolver@))],
            renders_view(out@) == head + renders_upto(*node, titles_view(titles@), resolver@, i as int),
        decreases node.fragments.fragments@.len() - i,
    {
        let ghost before = renders_view(out@);
        push_fragment_renders(&mut out, node, i, titles, resolver);
        proof {
            lemma_renders_step(*node, titles_view(titles@), resolver@, i as int);
        }
        assert(renders_view(out@) =~= head + renders_upto(*node, titles_view(titles@), resolver@, i + 1));
        i = i + 1;
    }
    out
}

} // verus!
