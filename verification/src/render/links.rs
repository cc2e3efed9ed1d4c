//! The body of `links/index.md`: for each page, in path order, the pages it
//! links to.
use vstd::prelude::*;
use crate::link::{list_of, LinkGraph};
use crate::model::{iter_pages, pages_of, pages_view, Node, Page, PageV};
use crate::order::{path_lt, path_lt_exec};
use crate::paths::{relative, relative_link};
use crate::render::fragment::{page_title, titles_view};
use crate::render::text::{label_of, link_label};
use crate::strs::{from_chars, push_all, sv, to_chars};

verus! {

broadcast use vstd::seq_lib::group_seq_properties;

/// A page and its title.
pub struct PageEntry {
    pub path: String,
    pub title: String,
}

pub open spec fn entries_pairs(v: Seq<PageEntry>) -> Seq<(Seq<char>, Seq<char>)> {
    v.map_values(|e: PageEntry| (e.path@, e.title@))
}

/// Every page of the nodes, as path and title, in order.
pub open spec fn all_pages(nodes: Seq<Node>) -> Seq<(Seq<char>, Seq<char>)>
    decreases nodes.len(),
{
    if nodes.len() == 0 {
        seq![]
    } else {
        all_pages(nodes.drop_last()) + pages_of(nodes.last()).map_values(|p: PageV| (p.0, p.1))
    }
}

/// The page the index is written to.
pub open spec fn links_page() -> Seq<char> {
    "links/index.md"@
}

pub open spec fn target_line(titles: Seq<(Seq<char>, Seq<char>)>, t: Seq<char>) -> Seq<char> {
    "- ["@ + label_of(page_title(titles, t)) + "]("@ + relative(links_page(), t) + ")\n"@
}

pub open spec fn target_lines(titles: Seq<(Seq<char>, Seq<char>)>, ts: Seq<Seq<char>>) -> Seq<char>
    decreases ts.len(),
{
    if ts.len() == 0 {
        seq![]
    } else {
        target_lines(titles, ts.drop_last()) + target_line(titles, ts.last())
    }
}

/// The block of one page: nothing when it links nowhere, else its title
/// and the pages it links to, in the order of the graph.
pub open spec fn page_block(titles: Seq<(Seq<char>, Seq<char>)>, g: LinkGraph, p: (Seq<char>, Seq<char>)) -> Seq<char> {
    let fwd = list_of(g@.0, p.0);
    if fwd.len() == 0 {
        seq![]
    } else {
        "## ["@ + label_of(p.1) + "]("@ + relative(links_page(), p.0) + ")\n"@ + "\n"@ + target_lines(titles, fwd) + "\n"@
    }
}

pub open spec fn page_blocks(titles: Seq<(Seq<char>, Seq<char>)>, g: LinkGraph, ps: Seq<(Seq<char>, Seq<char>)>) -> Seq<char>
    decreases ps.len(),
{
    if ps.len() == 0 {
        seq![]
    } else {
        page_blocks(titles, g, ps.drop_last()) + page_block(titles, g, ps.last())
    }
}

/// Whether any of the pages links somewhere.
pub open spec fn any_links(g: LinkGraph, ps: Seq<(Seq<char>, Seq<char>)>) -> bool {
    exists|i: int| 0 <= i < ps.len() && list_of(g@.0, (#[trigger] ps[i]).0).len() > 0
}

/// The text of `links/index.md` over the pages `ps` (in path order),
/// titled by `titles`.
pub open spec fn links_text(titles: Seq<(Seq<char>, Seq<char>)>, g: LinkGraph, ps: Seq<(Seq<char>, Seq<char>)>) -> Seq<char> {
    "# Links\n"@ + "\n"@ + page_blocks(titles, g, ps) + if any_links(g, ps) { ""@ } else { "_(no links between pages)_\n"@ }
}

/// Where `x` goes among pages in path order: after every page whose path
/// is not above its own.
pub open spec fn ins_pos(s: Seq<(Seq<char>, Seq<char>)>, x: (Seq<char>, Seq<char>)) -> int
    decreases s.len(),
{
    if s.len() == 0 || path_lt(x.0, s[0].0) {
        0
    } else {
        1 + ins_pos(s.drop_first(), x)
    }
}

pub open spec fn ins(s: Seq<(Seq<char>, Seq<char>)>, x: (Seq<char>, Seq<char>)) -> Seq<(Seq<char>, Seq<char>)> {
    let p = ins_pos(s, x);
    s.take(p) + seq![x] + s.skip(p)
}

/// The pages sorted by path, pages of the same path kept in their order.
pub open spec fn sort_pages(ps: Seq<(Seq<char>, Seq<char>)>) -> Seq<(Seq<char>, Seq<char>)>
    decreases ps.len(),
{
    if ps.len() == 0 {
        seq![]
    } else {
        ins(sort_pages(ps.drop_last()), ps.last())
    }
}

proof fn lemma_ins_pos(s: Seq<(Seq<char>, Seq<char>)>, x: (Seq<char>, Seq<char>))
    ensures
        0 <= ins_pos(s, x) <= s.len(),
    decreases s.len(),
{
    if s.len() > 0 && !path_lt(x.0, s[0].0) {
        lemma_ins_pos(s.drop_first(), x);
    }
}

/// Put `x` in its place.
fn insert_page(v: &mut Vec<PageEntry>, x: PageEntry)
    ensures
        entries_pairs(final(v)@) == ins(entries_pairs(old(v)@), (x.path@, x.title@)),
{
    let ghost s = entries_pairs(v@);
    let ghost xv = (x.path@, x.title@);
    proof {
        lemma_ins_pos(s, xv);
    }
    let mut k: usize = 0;
    assert(s.skip(0) =~= s);
    while k < v.len() && !path_lt_exec(x.path.as_str(), v[k].path.as_str())
        invariant
            k <= v@.len(),
            s == entries_pairs(v@),
            xv == (x.path@, x.title@),
            ins_pos(s, xv) == k + ins_pos(s.skip(k as int), xv),
        decreases v@.len() - k,
    {
        assert(s.skip(k as int)[0] == s[k as int]);
        assert(s.skip(k as int).drop_first() =~= s.skip(k + 1));
        k = k + 1;
    }
    proof {
        if k < v@.len() {
            assert(s.skip(k as int)[0] == s[k as int]);
        }
    }
    assert(ins_pos(s, xv) == k);
    v.insert(k, x);
    assert(entries_pairs(v@) =~= ins(s, xv));
}

fn push_lit(t: &mut Vec<char>, s: &str)
    ensures
        final(t)@ == old(t)@ + s@,
{
    push_all(t, &to_chars(s));
}

fn page_title_of(titles: &Vec<(String, String)>, p: &str) -> (r: String)
    ensures
        r@ == page_title(titles_view(titles@), p@),
{
    let ghost tv = titles_view(titles@);
    let mut k = titles.len();
    assert(tv.take(k as int) =~= tv);
    while k > 0
        invariant
            k <= titles@.len(),
            tv == titles_view(titles@),
            page_title(tv, p@) == page_title(tv.take(k as int), p@),
        decreases k,
    {
        let ghost t = tv.take(k as int);
        assert(t.last() == (titles@[k - 1].0@, titles@[k - 1].1@));
        assert(t.drop_last() =~= tv.take(k - 1));
        if crate::order::same_path_exec(titles[k - 1].0.as_str(), p) {
            return titles[k - 1].1.clone();
        }
        k = k - 1;
    }
    from_chars(&to_chars(p))
}

/// The pages of all nodes, and the same as a title table.
pub(crate) fn collect_pages(nodes: &[Node]) -> (r: (Vec<PageEntry>, Vec<(String, String)>))
    ensures
        entries_pairs(r.0@) == all_pages(nodes@),
        titles_view(r.1@) == all_pages(nodes@),
{
    let mut entries: Vec<PageEntry> = Vec::new();
    let mut titles: Vec<(String, String)> = Vec::new();
    let mut i: usize = 0;
    while i < nodes.len()
        invariant
            i <= nodes@.len(),
            entries_pairs(entries@) == all_pages(nodes@.take(i as int)),
            titles_view(titles@) == all_pages(nodes@.take(i as int)),
        decreases nodes@.len() - i,
    {
        assert(nodes@.take(i + 1).drop_last() =~= nodes@.take(i as int));
        let pages = iter_pages(&nodes[i]);
        let ghost pv = pages_view(pages@);
        let ghost want = pv.map_values(|p: PageV| (p.0, p.1));
        let ghost e0 = entries_pairs(entries@);
        let ghost t0 = titles_view(titles@);
        let mut k: usize = 0;
        while k < pages.len()
            invariant
                k <= pages@.len(),
                pv == pages_view(pages@),
                want == pv.map_values(|p: PageV| (p.0, p.1)),
                entries_pairs(entries@) == e0 + want.take(k as int),
                titles_view(titles@) == t0 + want.take(k as int),
            decreases pages@.len() - k,
        {
            let p = &pages[k];
            let ghost eb = entries_pairs(entries@);
            let ghost tb = titles_view(titles@);
            entries.push(PageEntry { path: p.output_path.clone(), title: p.title.clone() });
            titles.push((p.output_path.clone(), p.title.clone()));
            assert(want[k as int] == (p.output_path@, p.title@));
            assert(entries_pairs(entries@) =~= eb.push(want[k as int]));
            assert(titles_view(titles@) =~= tb.push(want[k as int]));
            assert(want.take(k + 1) =~= want.take(k as int).push(want[k as int]));
            k = k + 1;
        }
        assert(want.take(pages@.len() as int) =~= want);
        assert(nodes@.take(i + 1).last() == nodes@[i as int]);
        i = i + 1;
    }
    assert(nodes@.take(nodes@.len() as int) =~= nodes@);
    (entries, titles)
}

/// The body of `links/index.md`: each page that links somewhere, in path
/// order (pages of one path in their order), with the pages it links to,
/// titles flattened to link labels.
pub fn render_links_index(nodes: &[Node], graph: &LinkGraph) -> (r: String)
    ensures
        r@ == links_text(all_pages(nodes@), *graph, sort_pages(all_pages(nodes@))),
{
    let from = "links/index.md";
    let (entries, titles) = collect_pages(nodes);
    let ghost tv = titles_view(titles@);
    let ghost all = entries_pairs(entries@);
    let mut sorted: Vec<PageEntry> = Vec::new();
    let mut j: usize = 0;
    while j < entries.len()
        invariant
            j <= entries@.len(),
            all == entries_pairs(entries@),
            entries_pairs(sorted@) == sort_pages(all.take(j as int)),
        decreases entries@.len() - j,
    {
        assert(all.take(j + 1).drop_last() =~= all.take(j as int));
        let e = &entries[j];
        assert(all.take(j + 1).last() == (e.path@, e.title@));
        insert_page(&mut sorted, PageEntry { path: e.path.clone(), title: e.title.clone() });
        j = j + 1;
    }
    assert(all.take(entries@.len() as int) =~= all);
    let ghost ps = entries_pairs(sorted@);
    let mut t = to_chars("# Links\n");
    push_lit(&mut t, "\n");
    let ghost head = t@;
    let mut any = false;
    let mut i: usize = 0;
    while i < sorted.len()
        invariant
            i <= sorted@.len(),
            from@ == links_page(),
            ps == entries_pairs(sorted@),
            tv == titles_view(titles@),
            t@ == head + page_blocks(tv, *graph, ps.take(i as int)),
            any == any_links(*graph, ps.take(i as int)),
        decreases sorted@.len() - i,
    {
        assert(ps.take(i + 1).drop_last() =~= ps.take(i as int));
        let e = &sorted[i];
        assert(ps.take(i + 1).last() == (e.path@, e.title@));
        let forward = graph.forward_of(e.path.as_str());
        if forward.len() > 0 {
            let ghost before = t@;
            push_lit(&mut t, "## [");
            push_all(&mut t, &to_chars(link_label(e.title.as_str()).as_str()));
            push_lit(&mut t, "](");
            push_all(&mut t, &to_chars(relative_link(from, e.path.as_str()).as_str()));
            push_lit(&mut t, ")\n");
            push_lit(&mut t, "\n");
            let ghost mid = t@;
            let mut k: usize = 0;
            while k < forward.len()
                invariant
                    k <= forward@.len(),
                    from@ == links_page(),
                    tv == titles_view(titles@),
                    t@ == mid + target_lines(tv, sv(forward@).take(k as int)),
                decreases forward@.len() - k,
            {
                assert(sv(forward@).take(k + 1).drop_last() =~= sv(forward@).take(k as int));
                let target = forward[k].as_str();
                let ghost b2 = t@;
                push_lit(&mut t, "- [");
                push_all(&mut t, &to_chars(link_label(page_title_of(&titles, target).as_str()).as_str()));
                push_lit(&mut t, "](");
                push_all(&mut t, &to_chars(relative_link(from, target).as_str()));
                push_lit(&mut t, ")\n");
                assert(t@ =~= b2 + target_line(tv, target@));
                k = k + 1;
            }
            assert(sv(forward@).take(forward@.len() as int) =~= sv(forward@));
            push_lit(&mut t, "\n");
            assert(t@ =~= before + page_block(tv, *graph, (e.path@, e.title@)));
            any = true;
            assert(any_links(*graph, ps.take(i + 1))) by {
                assert(ps.take(i + 1)[i as int] == (e.path@, e.title@));
            }
        } else {
            assert(page_block(tv, *graph, (e.path@, e.title@)) =~= Seq::<char>::empty());
            assert(t@ =~= t@ + page_block(tv, *graph, (e.path@, e.title@)));
            assert(any_links(*graph, ps.take(i + 1)) == any_links(*graph, ps.take(i as int))) by {
                if any_links(*graph, ps.take(i + 1)) {
                    let j = choose|j: int| 0 <= j < ps.take(i + 1).len() && list_of(graph@.0, (#[trigger] ps.take(i + 1)[j]).0).len() > 0;
                    assert(j < i);
                    assert(ps.take(i as int)[j] == ps.take(i + 1)[j]);
                }
                if any_links(*graph, ps.take(i as int)) {
                    let j = choose|j: int| 0 <= j < ps.take(i as int).len() && list_of(graph@.0, (#[trigger] ps.take(i as int)[j]).0).len() > 0;
                    assert(ps.take(i + 1)[j] == ps.take(i as int)[j]);
                }
            }
        }
        i = i + 1;
    }
    assert(ps.take(sorted@.len() as int) =~= ps);
    if !any {
        push_lit(&mut t, "_(no links between pages)_\n");
    } else {
        push_lit(&mut t, "");
    }
    let r = from_chars(&t);
    assert(r@ == links_text(all_pages(nodes@), *graph, ps));
    r
}

} // verus!
