//! Turning a read Markdown file into a note of the wiki.
use vstd::prelude::*;
use crate::strs::{
    from_chars, join, join_chars, lines, lines_chars, starts_with, starts_with_at, to_chars, trim,
    trim_idx, slice_copy, vv,
};
use crate::notes::frontmatter::{self, Frontmatter, FrontmatterModel, empty_frontmatter, empty_model};
use crate::notes::headings::{self, Heading, headings_of, headings_view};

verus! {

/// A note taken into the wiki.
#[derive(Debug, Clone)]
pub struct NoteData {
    pub source_file: String,
    pub frontmatter: Frontmatter,
    pub headings: Vec<Heading>,
    pub first_paragraph: Option<String>,
    pub body: String,
}

/// Only `wiki: false` excludes a note; everything else is taken in.
pub fn should_ingest(fm: &Frontmatter) -> (b: bool)
    ensures
        b == (fm.wiki != Some(false)),
{
    match fm.wiki {
        Some(false) => false,
        _ => true,
    }
}

pub open spec fn is_fence_trimmed(t: Seq<char>) -> bool {
    starts_with(t, seq!['`', '`', '`']) || starts_with(t, seq!['~', '~', '~'])
}

/// The trimmed lines of the first paragraph, collected into `acc`.
pub open spec fn para_lines(ls: Seq<Seq<char>>, in_fence: bool, acc: Seq<Seq<char>>) -> Seq<Seq<char>>
    decreases ls.len(),
{
    if ls.len() == 0 {
        acc
    } else {
        let t = trim(ls[0]);
        if is_fence_trimmed(t) {
            para_lines(ls.drop_first(), !in_fence, acc)
        } else if in_fence {
            para_lines(ls.drop_first(), in_fence, acc)
        } else if t.len() == 0 {
            if acc.len() > 0 {
                acc
            } else {
                para_lines(ls.drop_first(), in_fence, acc)
            }
        } else if t[0] == '#' {
            para_lines(ls.drop_first(), in_fence, acc)
        } else {
            para_lines(ls.drop_first(), in_fence, acc.push(t))
        }
    }
}

/// The first paragraph of a body: its non-heading lines outside code fences,
/// trimmed and joined with single spaces; `None` when there is none.
pub open spec fn first_paragraph_spec(body: Seq<char>) -> Option<Seq<char>> {
    let p = para_lines(lines(body), false, seq![]);
    if p.len() == 0 {
        None
    } else {
        Some(join(p, seq![' ']))
    }
}

/// The first paragraph of a body without its frontmatter;
/// headings, blank lines and code fences are passed over.
pub fn first_paragraph(body: &str) -> (r: Option<String>)
    ensures
        match first_paragraph_spec(body@) {
            Some(p) => r matches Some(s) && s@ == p,
            None => r is None,
        },
{
    let v = to_chars(body);
    let ls = lines_chars(&v);
    let mut in_fence = false;
    let mut para: Vec<Vec<char>> = Vec::new();
    let mut i: usize = 0;
    assert(vv(&ls).skip(0) =~= vv(&ls));
    assert(vv(&para) =~= Seq::<Seq<char>>::empty());
    while i < ls.len()
        invariant
            i <= ls@.len(),
            vv(&ls) == lines(body@),
            para_lines(vv(&ls).skip(i as int), in_fence, vv(&para)) == para_lines(
                lines(body@),
                false,
                seq![],
            ),
        ensures
            vv(&para) == para_lines(lines(body@), false, seq![]),
        decreases ls@.len() - i,
    {
        let line = &ls[i];
        let ghost rest = vv(&ls).skip(i as int);
        assert(rest[0] == line@);
        assert(rest.drop_first() =~= vv(&ls).skip(i + 1));
        assert(line@.subrange(0, line@.len() as int) =~= line@);
        let (a, b) = trim_idx(line, 0, line.len());
        if starts_with_at(line, a, b, &['`', '`', '`']) || starts_with_at(line, a, b, &['~', '~', '~']) {
            in_fence = !in_fence;
        } else if in_fence {
        } else if a == b {
            if para.len() > 0 {
                assert(para_lines(rest, in_fence, vv(&para)) == vv(&para));
                break;
            }
        } else if line[a] == '#' {
        } else {
            let ghost before = vv(&para);
            para.push(slice_copy(line, a, b));
            assert(vv(&para) =~= before.push(line@.subrange(a as int, b as int)));
        }
        i = i + 1;
        if i >= ls.len() {
            assert(vv(&ls).skip(i as int) =~= Seq::<Seq<char>>::empty());
        }
    }
    if para.len() == 0 {
        None
    } else {
        let sep = [' '];
        assert(sep@ =~= seq![' ']);
        let j = join_chars(&para, &sep);
        Some(from_chars(&j))
    }
}

/// The note a file yields: front matter (empty when absent), body without it,
/// headings and first paragraph of the body.
pub open spec fn note_spec(n: NoteData, source: Seq<char>, content: Seq<char>) -> bool {
    let sp = frontmatter::split_spec(content);
    &&& n.source_file@ == source
    &&& n.frontmatter@ == (match sp.0 {
        Some(m) => m,
        None => empty_model(),
    })
    &&& n.body@ == sp.1
    &&& headings_view(n.headings@) == headings_of(sp.1)
    &&& (match first_paragraph_spec(sp.1) {
        Some(p) => n.first_paragraph matches Some(s) && s@ == p,
        None => n.first_paragraph is None,
    })
}

/// The note held by a read Markdown file, or `None` when its front matter
/// says `wiki: false`.
pub fn note_from_content(source: String, content: &str) -> (r: Option<NoteData>)
    ensures
        match r {
            Some(n) => note_spec(n, source@, content@) && n.frontmatter.wiki != Some(false),
            None => ({
                let sp = frontmatter::split_spec(content@);
                sp.0 matches Some(m) && m.wiki == Some(false)
            }),
        },
{
    let (fm_opt, body) = frontmatter::split(content);
    let fm = match fm_opt {
        Some(f) => f,
        None => empty_frontmatter(),
    };
    if !should_ingest(&fm) {
        return None;
    }
    let hs = headings::extract(body.as_str());
    let fp = first_paragraph(body.as_str());
    Some(NoteData { source_file: source, frontmatter: fm, headings: hs, first_paragraph: fp, body })
}

} // verus!
