//! The body of `headings/index.md`: for each note its h1, linked to the
//! entry page, and its h2 headings, linked to their fragment pages (or, for a
//! note left whole, to anchors on the entry page).
use vstd::prelude::*;
use crate::fragment::{fragments_view, Fragment, FragmentModel};
use crate::link::slug::{slug_of, slugify};
use crate::model::{first_h1, Node};
use crate::notes::headings::Heading;
use crate::num::{decimal, decimal_chars};
use crate::paths::{fragment_leaf_path, index_md, join2, md_ext, relative, relative_link, shell_index_path};
use crate::render::text::{label_of, link_label};
use crate::strs::{chars_eq, from_chars, push_all, slice_copy, to_chars, vv};

verus! {

broadcast use vstd::seq_lib::group_seq_properties;

/// One line of the index: heading level, heading text and link.
pub type HeadingEntryV = (u8, Seq<char>, Seq<char>);

/// The page the index is written to.
pub open spec fn headings_page() -> Seq<char> {
    "headings/index.md"@
}

// ---------------------------------------------------------------------------
// Anchors
// ---------------------------------------------------------------------------

/// How often `x` occurs in `s`.
pub open spec fn occ(s: Seq<Seq<char>>, x: Seq<char>) -> nat
    decreases s.len(),
{
    if s.len() == 0 {
        0
    } else {
        occ(s.drop_last(), x) + if s.last() == x { 1nat } else { 0nat }
    }
}

proof fn lemma_occ_bound(s: Seq<Seq<char>>, x: Seq<char>)
    ensures
        occ(s, x) <= s.len(),
        occ(s, x) > 0 ==> s.contains(x),
    decreases s.len(),
{
    if s.len() > 0 {
        lemma_occ_bound(s.drop_last(), x);
        if occ(s.drop_last(), x) > 0 {
            let k = choose|k: int| 0 <= k < s.drop_last().len() && s.drop_last()[k] == x;
            assert(s[k] == x);
        }
        if s.last() == x {
            assert(s[s.len() - 1] == x);
        }
    }
}

/// The anchor of the `i`-th heading slug among `bases`: the slug itself the
/// first time, then with `-1`, `-2`, .. appended for each earlier use.
pub open spec fn anchor_slug(bases: Seq<Seq<char>>, i: int) -> Seq<char> {
    let c = occ(bases.take(i), bases[i]);
    if c == 0 {
        bases[i]
    } else {
        bases[i] + "-"@ + decimal(c)
    }
}

fn find_count(counts: &Vec<(Vec<char>, usize)>, base: &[char]) -> (r: usize)
    ensures
        r <= counts@.len(),
        r < counts@.len() ==> counts@[r as int].0@ == base@,
        r == counts@.len() ==> forall|k: int| 0 <= k < counts@.len() ==> (#[trigger] counts@[k]).0@ != base@,
{
    let mut k: usize = 0;
    while k < counts.len()
        invariant
            k <= counts@.len(),
            forall|j: int| 0 <= j < k ==> (#[trigger] counts@[j]).0@ != base@,
        decreases counts@.len() - k,
    {
        if chars_eq(&counts[k].0, base) {
            return k;
        }
        k = k + 1;
    }
    k
}

/// The anchors of a note's h2 slugs, in order.
fn anchor_slugs(bases: &Vec<Vec<char>>) -> (r: Vec<Vec<char>>)
    ensures
        vv(&r) == Seq::new(bases@.len(), |i: int| anchor_slug(vv(bases), i)),
{
    let ghost b = vv(bases);
    let mut out: Vec<Vec<char>> = Vec::new();
    let mut counts: Vec<(Vec<char>, usize)> = Vec::new();
    let mut i: usize = 0;
    while i < bases.len()
        invariant
            i <= bases@.len(),
            b == vv(bases),
            vv(&out) == Seq::new(i as nat, |j: int| anchor_slug(b, j)),
            forall|k: int| 0 <= k < counts@.len() ==> (#[trigger] counts@[k]).1 + 1 == occ(b.take(i as int), counts@[k].0@),
            forall|x: Seq<char>| #[trigger] occ(b.take(i as int), x) > 0 ==> exists|k: int| 0 <= k < counts@.len() && (#[trigger] counts@[k]).0@ == x,
            forall|k: int, l: int| 0 <= k < l < counts@.len() ==> (#[trigger] counts@[k]).0@ != (#[trigger] counts@[l]).0@,
        decreases bases@.len() - i,
    {
        let base = &bases[i];
        let ghost pre = b.take(i as int);
        assert(b.take(i + 1) =~= pre.push(base@));
        assert(b.take(i + 1).drop_last() =~= pre);
        proof {
            lemma_occ_bound(pre, base@);
        }
        let k = find_count(&counts, base);
        let ghost before = vv(&out);
        if k < counts.len() {
            let c = counts[k].1 + 1;
            let mut slug = base.clone();
            assert(slug@ == base@);
            push_all(&mut slug, &['-']);
            let digits = decimal_chars(c);
            push_all(&mut slug, &digits);
            assert(c == occ(pre, base@));
            assert(slug@ =~= anchor_slug(b, i as int)) by {
                assert(seq!['-'] =~= "-"@) by { reveal_strlit("-"); }
            }
            out.push(slug);
            assert(vv(&out) =~= before.push(anchor_slug(b, i as int)));
            let ghost old_counts = counts@;
            let name = counts[k].0.clone();
            counts.set(k, (name, c));
            proof {
                assert forall|j: int| 0 <= j < counts@.len() implies (#[trigger] counts@[j]).1 + 1 == occ(b.take(i + 1), counts@[j].0@) by {
                    if j != k {
                        assert(old_counts[j].0@ != base@);
                    }
                }
                assert forall|x: Seq<char>| #[trigger] occ(b.take(i + 1), x) > 0 implies exists|j: int| 0 <= j < counts@.len() && (#[trigger] counts@[j]).0@ == x by {
                    if x == base@ {
                        assert(counts@[k as int].0@ == x);
                    } else {
                        assert(occ(b.take(i + 1), x) == occ(pre, x));
                        assert(occ(pre, x) > 0);
                        let j = choose|j: int| 0 <= j < old_counts.len() && (#[trigger] old_counts[j]).0@ == x;
                        assert(counts@[j].0@ == x);
                    }
                }
                assert forall|j: int, l: int| 0 <= j < l < counts@.len() implies (#[trigger] counts@[j]).0@ != (#[trigger] counts@[l]).0@ by {
                    assert(old_counts[j].0@ != old_counts[l].0@);
                }
            }
        } else {
            proof {
                if occ(pre, base@) > 0 {
                    let j = choose|j: int| 0 <= j < counts@.len() && (#[trigger] counts@[j]).0@ == base@;
                    assert(false);
                }
            }
            let copy = slice_copy(base, 0, base.len());
            assert(base@.subrange(0, base@.len() as int) =~= base@);
            assert(anchor_slug(b, i as int) == base@);
            out.push(copy);
            assert(vv(&out) =~= before.push(anchor_slug(b, i as int)));
            let ghost old_counts = counts@;
            counts.push((base.clone(), 0));
            proof {
                assert forall|j: int| 0 <= j < counts@.len() implies (#[trigger] counts@[j]).1 + 1 == occ(b.take(i + 1), counts@[j].0@) by {
                    if j < old_counts.len() {
                        assert(old_counts[j].0@ != base@);
                    }
                }
                assert forall|x: Seq<char>| #[trigger] occ(b.take(i + 1), x) > 0 implies exists|j: int| 0 <= j < counts@.len() && (#[trigger] counts@[j]).0@ == x by {
                    if x == base@ {
                        assert(counts@[old_counts.len() as int].0@ == x);
                    } else {
                        assert(occ(b.take(i + 1), x) == occ(pre, x));
                        assert(occ(pre, x) > 0);
                        let j = choose|j: int| 0 <= j < old_counts.len() && (#[trigger] old_counts[j]).0@ == x;
                        assert(counts@[j].0@ == x);
                    }
                }
            }
        }
        assert(vv(&out) =~= Seq::new((i + 1) as nat, |j: int| anchor_slug(b, j)));
        i = i + 1;
    }
    out
}

// ---------------------------------------------------------------------------
// Entries
// ---------------------------------------------------------------------------

/// The texts of the h2 headings, in order.
pub open spec fn h2_texts(hs: Seq<Heading>) -> Seq<Seq<char>>
    decreases hs.len(),
{
    if hs.len() == 0 {
        seq![]
    } else {
        let r = h2_texts(hs.drop_last());
        if hs.last().level == 2 {
            r.push(hs.last().text@)
        } else {
            r
        }
    }
}

/// The h2 entries of a note left whole: each links to its anchor on the
/// entry page at `link`.
pub open spec fn anchor_entries(link: Seq<char>, texts: Seq<Seq<char>>) -> Seq<HeadingEntryV> {
    let bases = texts.map_values(|t: Seq<char>| slug_of(t));
    Seq::new(texts.len(), |i: int| (2u8, texts[i], link + "#"@ + anchor_slug(bases, i)))
}

/// The entry of a fragment: its heading, linked to its page (a shell's
/// index for a shell).
pub open spec fn fragment_entry(dir: Seq<char>, f: FragmentModel) -> HeadingEntryV {
    match f {
        FragmentModel::H2 { heading, slug, .. } => (2u8, heading, relative(headings_page(), join2(dir, slug + md_ext()))),
        FragmentModel::Shell { heading, slug, .. } => (2u8, heading, relative(headings_page(), join2(join2(dir, slug), index_md()))),
    }
}

/// The entries of a note: its first h1, linked to the entry page, then its
/// h2 headings.
pub open spec fn heading_entries(n: Node) -> Seq<HeadingEntryV> {
    let entry = relative(headings_page(), n.output_path@);
    let h1 = match first_h1(n.note.headings@) {
        Some(t) => seq![(1u8, t, entry)],
        None => seq![],
    };
    h1 + if n.fragments.non_fragmented {
        anchor_entries(entry, h2_texts(n.note.headings@))
    } else {
        fragments_view(n.fragments.fragments@).map_values(|f: FragmentModel| fragment_entry(n.entry_dir@, f))
    }
}

pub open spec fn entries_view(v: Seq<(u8, String, String)>) -> Seq<HeadingEntryV> {
    v.map_values(|e: (u8, String, String)| (e.0, e.1@, e.2@))
}

fn first_h1_text(hs: &Vec<Heading>) -> (r: Option<String>)
    ensures
        match r {
            Some(t) => first_h1(hs@) == Some(t@),
            None => first_h1(hs@) is None,
        },
{
    let mut i: usize = 0;
    assert(hs@.skip(0) =~= hs@);
    while i < hs.len()
        invariant
            i <= hs@.len(),
            first_h1(hs@) == first_h1(hs@.skip(i as int)),
        decreases hs@.len() - i,
    {
        let ghost rest = hs@.skip(i as int);
        assert(rest[0] == hs@[i as int]);
        assert(rest.drop_first() =~= hs@.skip(i + 1));
        if hs[i].level == 1 {
            return Some(hs[i].text.clone());
        }
        i = i + 1;
    }
    assert(hs@.skip(i as int) =~= Seq::<Heading>::empty());
    None
}

/// The h2 texts and their slugs.
fn h2_slugs(hs: &Vec<Heading>) -> (r: (Vec<String>, Vec<Vec<char>>))
    ensures
        r.0@.len() == r.1@.len(),
        r.0@.map_values(|t: String| t@) == h2_texts(hs@),
        vv(&r.1) == h2_texts(hs@).map_values(|t: Seq<char>| slug_of(t)),
{
    let mut texts: Vec<String> = Vec::new();
    let mut slugs: Vec<Vec<char>> = Vec::new();
    let mut i: usize = 0;
    while i < hs.len()
        invariant
            i <= hs@.len(),
            texts@.len() == slugs@.len(),
            texts@.map_values(|t: String| t@) == h2_texts(hs@.take(i as int)),
            vv(&slugs) == h2_texts(hs@.take(i as int)).map_values(|t: Seq<char>| slug_of(t)),
        decreases hs@.len() - i,
    {
        assert(hs@.take(i + 1).drop_last() =~= hs@.take(i as int));
        let h = &hs[i];
        if h.level == 2 {
            let ghost bt = texts@.map_values(|t: String| t@);
            let ghost bs = vv(&slugs);
            texts.push(h.text.clone());
            slugs.push(to_chars(slugify(h.text.as_str()).as_str()));
            assert(texts@.map_values(|t: String| t@) =~= bt.push(h.text@));
            assert(vv(&slugs) =~= bs.push(slug_of(h.text@)));
            assert(h2_texts(hs@.take(i + 1)) == h2_texts(hs@.take(i as int)).push(h.text@));
            assert(h2_texts(hs@.take(i + 1)).map_values(|t: Seq<char>| slug_of(t)) =~= bs.push(slug_of(h.text@)));
        }
        i = i + 1;
    }
    assert(hs@.take(hs@.len() as int) =~= hs@);
    (texts, slugs)
}

fn empty_entries() -> (r: Vec<(u8, String, String)>)
    ensures
        r@.len() == 0,
{
    Vec::new()
}

/// The entries of one note.
fn heading_entries_exec(n: &Node) -> (r: Vec<(u8, String, String)>)
    ensures
        entries_view(r@) == heading_entries(*n),
{
    let from = "headings/index.md";
    let entry = relative_link(from, n.output_path.as_str());
    let mut out = empty_entries();
    match first_h1_text(&n.note.headings) {
        Some(t) => {
            out.push((1u8, t, entry.clone()));
        },
        None => {},
    }
    let ghost head = entries_view(out@);
    assert(head == match first_h1(n.note.headings@) {
        Some(t) => seq![(1u8, t, entry@)],
        None => Seq::<HeadingEntryV>::empty(),
    });
    if n.fragments.non_fragmented {
        let (texts, bases) = h2_slugs(&n.note.headings);
        let anchors = anchor_slugs(&bases);
        assert(anchors@.len() == vv(&anchors).len());
        let ghost want = anchor_entries(entry@, h2_texts(n.note.headings@));
        let mut i: usize = 0;
        while i < texts.len()
            invariant
                i <= texts@.len(),
                texts@.len() == bases@.len(),
                texts@.map_values(|t: String| t@) == h2_texts(n.note.headings@),
                vv(&bases) == h2_texts(n.note.headings@).map_values(|t: Seq<char>| slug_of(t)),
                vv(&anchors) == Seq::new(bases@.len(), |k: int| anchor_slug(vv(&bases), k)),
                anchors@.len() == bases@.len(),
                want == anchor_entries(entry@, h2_texts(n.note.headings@)),
                entries_view(out@) == head + want.take(i as int),
            decreases texts@.len() - i,
        {
            let mut link = to_chars(entry.as_str());
            push_all(&mut link, &['#']);
            push_all(&mut link, &anchors[i]);
            let ghost before = entries_view(out@);
            assert(anchors@[i as int]@ == anchor_slug(vv(&bases), i as int)) by {
                assert(vv(&anchors)[i as int] == anchors@[i as int]@);
            }
            let t = texts[i].clone();
            let link_text = from_chars(&link);
            assert(link_text@ == entry@ + seq!['#'] + anchor_slug(vv(&bases), i as int));
            out.push((2u8, t, link_text));
            proof {
                assert(texts@.map_values(|t: String| t@)[i as int] == texts@[i as int]@);
                assert(seq!['#'] =~= "#"@) by { reveal_strlit("#"); }
                assert(texts@[i as int]@ == h2_texts(n.note.headings@)[i as int]);
                assert(want[i as int] == (2u8, texts@[i as int]@, entry@ + "#"@ + anchor_slug(vv(&bases), i as int)));
                assert(entries_view(out@) =~= before.push(want[i as int]));
                assert(want.take(i + 1) =~= want.take(i as int).push(want[i as int]));
            }
            i = i + 1;
        }
        assert(want.take(texts@.len() as int) =~= want);
    } else {
        let ghost fs = fragments_view(n.fragments.fragments@);
        let ghost want = fs.map_values(|f: FragmentModel| fragment_entry(n.entry_dir@, f));
        let mut i: usize = 0;
        while i < n.fragments.fragments.len()
            invariant
                i <= n.fragments.fragments@.len(),
                from@ == headings_page(),
                fs == fragments_view(n.fragments.fragments@),
                want == fs.map_values(|f: FragmentModel| fragment_entry(n.entry_dir@, f)),
                entries_view(out@) == head + want.take(i as int),
            decreases n.fragments.fragments@.len() - i,
        {
            let ghost before = entries_view(out@);
            assert(fs[i as int] == n.fragments.fragments@[i as int]@);
            let item = match &n.fragments.fragments[i] {
                Fragment::H2 { heading, slug, body } => {
                    assert(fs[i as int] == FragmentModel::H2 { heading: heading@, slug: slug@, body: body@ });
                    let target = fragment_leaf_path(n.entry_dir.as_str(), slug.as_str());
                    let link = relative_link(from, target.as_str());
                    (2u8, heading.clone(), link)
                },
                Fragment::Shell { heading, slug, preface, children } => {
                    assert(fs[i as int] == FragmentModel::Shell { heading: heading@, slug: slug@, preface: preface@, children: crate::fragment::children_view(children@) });
                    let target = shell_index_path(n.entry_dir.as_str(), slug.as_str());
                    let link = relative_link(from, target.as_str());
                    (2u8, heading.clone(), link)
                },
            };
            assert((item.0, item.1@, item.2@) == want[i as int]);
            out.push(item);
            assert(entries_view(out@) =~= before.push(want[i as int]));
            assert(want.take(i + 1) =~= want.take(i as int).push(want[i as int]));
            i = i + 1;
        }
        assert(want.take(n.fragments.fragments@.len() as int) =~= want);
    }
    out
}

// ---------------------------------------------------------------------------
// The page
// ---------------------------------------------------------------------------

/// One line of the index; h2 entries are indented under the h1.
pub open spec fn entry_line(e: HeadingEntryV) -> Seq<char> {
    (if e.0 == 2 { "  "@ } else { ""@ }) + "- ["@ + label_of(e.1) + "]("@ + e.2 + ")\n"@
}

pub open spec fn entry_lines(es: Seq<HeadingEntryV>) -> Seq<char>
    decreases es.len(),
{
    if es.len() == 0 {
        seq![]
    } else {
        entry_lines(es.drop_last()) + entry_line(es.last())
    }
}

/// The block of one note: nothing for a note without headings, else its
/// title linked to its entry page, then its entries.
pub open spec fn node_block(n: Node) -> Seq<char> {
    let es = heading_entries(n);
    if es.len() == 0 {
        seq![]
    } else {
        "## ["@ + label_of(n.title@) + "]("@ + relative(headings_page(), n.output_path@) + ")\n"@ + "\n"@
            + entry_lines(es) + "\n"@
    }
}

pub open spec fn node_blocks(ns: Seq<Node>) -> Seq<char>
    decreases ns.len(),
{
    if ns.len() == 0 {
        seq![]
    } else {
        node_blocks(ns.drop_last()) + node_block(ns.last())
    }
}

/// Whether any note has a heading to list.
pub open spec fn any_headings(ns: Seq<Node>) -> bool {
    exists|i: int| 0 <= i < ns.len() && heading_entries(#[trigger] ns[i]).len() > 0
}

/// The text of `headings/index.md`.
pub open spec fn headings_index_text(ns: Seq<Node>) -> Seq<char> {
    "# Headings\n"@ + "\n"@ + node_blocks(ns) + if any_headings(ns) { ""@ } else { "_(no headings)_\n"@ }
}

/// The body of `headings/index.md`: each note's h1 links to its entry page,
/// and its h2 headings to their fragment pages, or, for a note left whole,
/// to anchors on its entry page.
pub fn render_headings_index(nodes: &[Node]) -> (r: String)
    ensures
        r@ == headings_index_text(nodes@),
{
    let mut s = String::from_str("# Headings\n");
    s.append("\n");
    let ghost head = s@;
    let mut any = false;
    let mut i: usize = 0;
    while i < nodes.len()
        invariant
            i <= nodes@.len(),
            s@ == head + node_blocks(nodes@.take(i as int)),
            head == "# Headings\n"@ + "\n"@,
            any == any_headings(nodes@.take(i as int)),
        decreases nodes@.len() - i,
    {
        let n = &nodes[i];
        assert(nodes@.take(i + 1).drop_last() =~= nodes@.take(i as int));
        assert(nodes@.take(i + 1).last() == *n);
        let entries = heading_entries_exec(n);
        let ghost es = heading_entries(*n);
        if entries.len() > 0 {
            let ghost before = s@;
            let note_link = relative_link("headings/index.md", n.output_path.as_str());
            s.append("## [");
            s.append(link_label(n.title.as_str()).as_str());
            s.append("](");
            s.append(note_link.as_str());
            s.append(")\n");
            s.append("\n");
            let ghost mid = s@;
            let mut k: usize = 0;
            while k < entries.len()
                invariant
                    k <= entries@.len(),
                    entries_view(entries@) == es,
                    s@ == mid + entry_lines(es.take(k as int)),
                decreases entries@.len() - k,
            {
                let e = &entries[k];
                let ghost b2 = s@;
                if e.0 == 2 {
                    s.append("  ");
                } else {
                    s.append("");
                }
                s.append("- [");
                s.append(link_label(e.1.as_str()).as_str());
                s.append("](");
                s.append(e.2.as_str());
                s.append(")\n");
                assert(es.take(k + 1).drop_last() =~= es.take(k as int));
                assert(es[k as int] == (e.0, e.1@, e.2@));
                assert(s@ =~= b2 + entry_line(es[k as int]));
                k = k + 1;
            }
            assert(es.take(entries@.len() as int) =~= es);
            s.append("\n");
            assert(s@ =~= before + node_block(*n));
            any = true;
            assert(any_headings(nodes@.take(i + 1))) by {
                assert(nodes@.take(i + 1)[i as int] == *n);
            }
        } else {
            assert(s@ =~= s@ + node_block(*n));
            assert(any_headings(nodes@.take(i + 1)) == any_headings(nodes@.take(i as int))) by {
                if any_headings(nodes@.take(i + 1)) {
                    let j = choose|j: int| 0 <= j < nodes@.take(i + 1).len() && heading_entries(#[trigger] nodes@.take(i + 1)[j]).len() > 0;
                    assert(j < i);
                    assert(nodes@.take(i as int)[j] == nodes@.take(i + 1)[j]);
                }
                if any_headings(nodes@.take(i as int)) {
                    let j = choose|j: int| 0 <= j < nodes@.take(i as int).len() && heading_entries(#[trigger] nodes@.take(i as int)[j]).len() > 0;
                    assert(nodes@.take(i + 1)[j] == nodes@.take(i as int)[j]);
                }
            }
        }
        i = i + 1;
    }
    assert(nodes@.take(nodes@.len() as int) =~= nodes@);
    if !any {
        s.append("_(no headings)_\n");
    } else {
        s.append("");
    }
    s
}

} // verus!
