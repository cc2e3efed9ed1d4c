//! The internal model of one taken-in note.
use vstd::prelude::*;
use crate::fragment::{build_fragments, children_view, fragments_view, tree_of, Fragment, FragmentModel, FragmentTree};
use crate::notes::headings::Heading;
use crate::notes::ingest::NoteData;
use crate::num::first_free;
use crate::paths::{
    fragment_leaf_path, h3_leaf_path, index_md, join2, md_ext, shell_index_path,
    components, entry_index_of, entry_index_path, parent_dir, parent_dir_exec, resolve_conflict,
    resolve_conflict_spec, stem, stem_exec, strings_set, components_exec,
};
use crate::strs::{from_chars, sv, to_chars, vv};

verus! {

/// The model of one taken-in note: its entry page and its fragment pages.
#[derive(Debug, Clone)]
pub struct Node {
    /// The entry page `fragments/<rel>/index.md`.
    pub output_path: String,
    /// The directory of the entry page, `fragments/<rel>`.
    pub entry_dir: String,
    pub title: String,
    pub note: NoteData,
    pub fragments: FragmentTree,
    /// The related pages listed on the entry page.
    pub related: Vec<String>,
    /// For each page, the pages linking to it (by output path).
    pub backlinks: Vec<(String, Vec<String>)>,
}

/// The first level-1 heading text, if any.
pub open spec fn first_h1(hs: Seq<Heading>) -> Option<Seq<char>>
    decreases hs.len(),
{
    if hs.len() == 0 {
        None
    } else if hs[0].level == 1 {
        Some(hs[0].text@)
    } else {
        first_h1(hs.drop_first())
    }
}

/// The title of a note: front matter `title`, else its first h1, else the
/// stem of its file name (the whole source path when it has none).
pub open spec fn title_of(n: NoteData) -> Seq<char> {
    match n.frontmatter.title {
        Some(t) => t@,
        None => match first_h1(n.headings@) {
            Some(h) => h,
            None => {
                let cs = components(n.source_file@);
                if cs.len() == 0 {
                    n.source_file@
                } else {
                    stem(cs.last())
                }
            },
        },
    }
}

pub fn derive_title(data: &NoteData) -> (r: String)
    ensures
        r@ == title_of(*data),
{
    match &data.frontmatter.title {
        Some(t) => return t.clone(),
        None => {},
    }
    let mut i: usize = 0;
    assert(data.headings@.skip(0) =~= data.headings@);
    while i < data.headings.len()
        invariant
            i <= data.headings@.len(),
            data.frontmatter.title is None,
            first_h1(data.headings@) == first_h1(data.headings@.skip(i as int)),
        decreases data.headings@.len() - i,
    {
        let ghost rest = data.headings@.skip(i as int);
        assert(rest[0] == data.headings@[i as int]);
        assert(rest.drop_first() =~= data.headings@.skip(i + 1));
        if data.headings[i].level == 1 {
            return data.headings[i].text.clone();
        }
        i = i + 1;
    }
    assert(data.headings@.skip(i as int) =~= Seq::<Heading>::empty());
    let cs = components_exec(&to_chars(data.source_file.as_str()));
    if cs.len() == 0 {
        data.source_file.clone()
    } else {
        assert(vv(&cs).last() == cs@[cs@.len() - 1]@);
        from_chars(&stem_exec(&cs[cs.len() - 1]))
    }
}

/// The kinds of pages a note yields.
#[derive(Debug, Clone, Copy, PartialEq, Eq)]
pub enum PageKind {
    Entry,
    Shell,
    H2Leaf,
    H3Leaf,
}

/// One page of a note: where it goes, its title, its body before link rewriting.
#[derive(Debug)]
pub struct Page {
    pub output_path: String,
    pub title: String,
    pub raw_body: String,
    pub kind: PageKind,
}

pub type PageV = (Seq<char>, Seq<char>, Seq<char>, PageKind);

impl View for Page {
    type V = PageV;

    open spec fn view(&self) -> PageV {
        (self.output_path@, self.title@, self.raw_body@, self.kind)
    }
}

pub open spec fn pages_view(v: Seq<Page>) -> Seq<PageV> {
    v.map_values(|p: Page| p@)
}

/// The pages of the children of a shell `slug` in the entry directory `dir`.
pub open spec fn child_pages(dir: Seq<char>, slug: Seq<char>, cs: Seq<(Seq<char>, Seq<char>, Seq<char>)>) -> Seq<PageV> {
    cs.map_values(|c: (Seq<char>, Seq<char>, Seq<char>)|
        (join2(join2(dir, slug), c.1 + md_ext()), c.0, c.2, PageKind::H3Leaf))
}

/// The pages of one fragment.
pub open spec fn fragment_pages(dir: Seq<char>, f: FragmentModel) -> Seq<PageV> {
    match f {
        FragmentModel::H2 { heading, slug, body } => seq![(join2(dir, slug + md_ext()), heading, body, PageKind::H2Leaf)],
        FragmentModel::Shell { heading, slug, preface, children } =>
            seq![(join2(join2(dir, slug), index_md()), heading, preface, PageKind::Shell)] + child_pages(dir, slug, children),
    }
}

/// The pages of fragments `fs`, in order.
pub open spec fn fragments_pages(dir: Seq<char>, fs: Seq<FragmentModel>) -> Seq<PageV>
    decreases fs.len(),
{
    if fs.len() == 0 {
        seq![]
    } else {
        fragment_pages(dir, fs[0]) + fragments_pages(dir, fs.drop_first())
    }
}

/// All pages of a node: its entry page, then each fragment's pages in order
/// (a shell page followed by its children).
pub open spec fn pages_of(n: Node) -> Seq<PageV> {
    seq![(n.output_path@, n.title@, n.fragments.preface@, PageKind::Entry)]
        + fragments_pages(n.entry_dir@, fragments_view(n.fragments.fragments@))
}

proof fn lemma_fragments_pages_push(dir: Seq<char>, fs: Seq<FragmentModel>, f: FragmentModel)
    ensures
        fragments_pages(dir, fs.push(f)) == fragments_pages(dir, fs) + fragment_pages(dir, f),
    decreases fs.len(),
{
    if fs.len() > 0 {
        assert(fs.push(f).drop_first() =~= fs.drop_first().push(f));
        lemma_fragments_pages_push(dir, fs.drop_first(), f);
        assert(fs.push(f)[0] == fs[0]);
        assert(fragment_pages(dir, fs[0]) + (fragments_pages(dir, fs.drop_first()) + fragment_pages(dir, f))
            =~= (fragment_pages(dir, fs[0]) + fragments_pages(dir, fs.drop_first())) + fragment_pages(dir, f));
    } else {
        assert(fs.push(f).drop_first() =~= Seq::<FragmentModel>::empty());
        assert(fs.push(f)[0] == f);
        assert(fragments_pages(dir, Seq::<FragmentModel>::empty()) == Seq::<PageV>::empty());
        assert(fragment_pages(dir, f) + Seq::<PageV>::empty() =~= fragment_pages(dir, f));
        assert(Seq::<PageV>::empty() + fragment_pages(dir, f) =~= fragment_pages(dir, f));
    }
}

fn push_page(out: &mut Vec<Page>, p: Page)
    ensures
        pages_view(final(out)@) == pages_view(old(out)@).push(p@),
{
    let ghost before = pages_view(out@);
    out.push(p);
    assert(pages_view(out@) =~= before.push(p@));
}

fn push_fragment_pages(dir: &str, f: &Fragment, out: &mut Vec<Page>)
    ensures
        pages_view(final(out)@) == pages_view(old(out)@) + fragment_pages(dir@, f@),
{
    match f {
        Fragment::H2 { heading, slug, body } => {
            let ghost before = pages_view(out@);
            push_page(out, Page { output_path: fragment_leaf_path(dir, slug.as_str()), title: heading.clone(), raw_body: body.clone(), kind: PageKind::H2Leaf });
            assert(pages_view(out@) =~= before + fragment_pages(dir@, f@));
        },
        Fragment::Shell { heading, slug, preface, children } => {
            let ghost before = pages_view(out@);
            push_page(out, Page { output_path: shell_index_path(dir, slug.as_str()), title: heading.clone(), raw_body: preface.clone(), kind: PageKind::Shell });
            let ghost mid = pages_view(out@);
            let ghost cv = children_view(children@);
            let mut i: usize = 0;
            while i < children.len()
                invariant
                    i <= children@.len(),
                    cv == children_view(children@),
                    pages_view(out@) == mid + child_pages(dir@, slug@, cv.take(i as int)),
                decreases children@.len() - i,
            {
                let c = &children[i];
                let ghost prev = pages_view(out@);
                push_page(out, Page { output_path: h3_leaf_path(dir, slug.as_str(), c.slug.as_str()), title: c.heading.clone(), raw_body: c.body.clone(), kind: PageKind::H3Leaf });
                assert(cv.take(i + 1) =~= cv.take(i as int).push(cv[i as int]));
                assert(child_pages(dir@, slug@, cv.take(i + 1)) =~= child_pages(dir@, slug@, cv.take(i as int)).push(
                    (join2(join2(dir@, slug@), cv[i as int].1 + md_ext()), cv[i as int].0, cv[i as int].2, PageKind::H3Leaf)));
                i = i + 1;
            }
            assert(cv.take(i as int) =~= cv);
            assert(pages_view(out@) =~= before + fragment_pages(dir@, f@));
        },
    }
}

/// All pages of a note in order: entry, then shells, fragments and children.
pub fn iter_pages(n: &Node) -> (r: Vec<Page>)
    ensures
        pages_view(r@) == pages_of(*n),
{
    let mut out: Vec<Page> = Vec::new();
    push_page(&mut out, Page {
        output_path: n.output_path.clone(),
        title: n.title.clone(),
        raw_body: n.fragments.preface.clone(),
        kind: PageKind::Entry,
    });
    let ghost first = pages_view(out@);
    let ghost fv = fragments_view(n.fragments.fragments@);
    let frs = &n.fragments.fragments;
    let mut i: usize = 0;
    while i < frs.len()
        invariant
            i <= frs@.len(),
            fv == fragments_view(frs@),
            *frs == n.fragments.fragments,
            pages_view(out@) == first + fragments_pages(n.entry_dir@, fv.take(i as int)),
        decreases frs@.len() - i,
    {
        push_fragment_pages(n.entry_dir.as_str(), &frs[i], &mut out);
        proof {
            assert(fv.take(i + 1) =~= fv.take(i as int).push(fv[i as int]));
            lemma_fragments_pages_push(n.entry_dir@, fv.take(i as int), fv[i as int]);
        }
        i = i + 1;
    }
    assert(fv.take(i as int) =~= fv);
    out
}

} // verus!
