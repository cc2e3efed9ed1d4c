//! Rendering the wiki's pages as Markdown text, and putting them together
//! into the plan of files a run writes.
pub mod text;
pub mod tags;
pub mod headings;
pub mod site_index;
pub mod fragment;
pub mod overview;
pub mod unresolved;
pub mod links;
pub mod index;

use vstd::prelude::*;
use crate::link::resolver::{Resolver, UnresolvedLink};
use crate::link::LinkGraph;
use crate::model::Node;
use crate::output_plan::{insert_text, OutputPlan, PlanV, plan_insert};
use crate::render::fragment::{node_pages, render_pages, renders_view, titles_view, PageRender};
use crate::render::headings::{headings_index_text, render_headings_index};
use crate::render::index::{index_text, render_index, source_dirs};
use crate::render::links::{all_pages, collect_pages, links_text, render_links_index, sort_pages};
use crate::render::site_index::{all_leaves, render_site_indexes, site_indexes_are, SiteIndexPage};
use crate::render::tags::{
    build_tag_index, index_of, lemma_built_index_named, nodes_pairs, render_tag_index_page,
    render_tag_page, tag_index_text, tag_page_path, tag_page_text, tag_path_of, TagEntryV,
};
use crate::render::unresolved::{page_keys, paths_strict, render_unresolved, unresolved_text};
use crate::context_pack::texts_strict;
use crate::strs::{from_chars, sv, to_chars};

verus! {

broadcast use vstd::seq_lib::group_seq_properties;

/// What the pages of a wiki are made from.
pub struct WikiOutput<'a> {
    pub project_title: &'a str,
    pub nodes: &'a [Node],
    pub unresolved: &'a [UnresolvedLink],
    pub graph: &'a LinkGraph,
}

/// A plan with each text put at its path in turn, as UTF-8.
#[verifier::opaque]
pub open spec fn insert_all(p: PlanV, items: Seq<(Seq<char>, Seq<char>)>) -> PlanV
    decreases items.len(),
{
    if items.len() == 0 {
        p
    } else {
        plan_insert(insert_all(p, items.drop_last()), items.last().0, vstd::utf8::encode_utf8(items.last().1))
    }
}

/// The pages of the notes, note by note.
pub open spec fn notes_items(nodes: Seq<Node>, titles: Seq<(Seq<char>, Seq<char>)>, ts: Seq<crate::link::resolver::TargetV>, k: int) -> Seq<(Seq<char>, Seq<char>)>
    decreases k,
{
    if k <= 0 {
        seq![]
    } else {
        notes_items(nodes, titles, ts, k - 1) + node_pages(nodes[k - 1], titles, ts)
    }
}

/// The page of each tag.
pub open spec fn tag_items(e: Seq<TagEntryV>, nodes: Seq<Node>) -> Seq<(Seq<char>, Seq<char>)> {
    e.map_values(|t: TagEntryV| (tag_path_of(t.0), tag_page_text(t.0, t.1, nodes)))
}

pub open spec fn site_items(s: Seq<SiteIndexPage>) -> Seq<(Seq<char>, Seq<char>)> {
    s.map_values(|p: SiteIndexPage| (p.output_path@, p.body@))
}

/// All pages of a wiki in the order they are planned: the notes' pages,
/// the tag index and tag pages, the headings, links and unresolved-link
/// indexes, the directory indexes and the root index.
pub open spec fn core_items(
    title: Seq<char>,
    nodes: Seq<Node>,
    unresolved: Seq<UnresolvedLink>,
    g: LinkGraph,
    ukeys: Seq<Seq<char>>,
    site: Seq<SiteIndexPage>,
    names: Seq<Seq<char>>,
) -> Seq<(Seq<char>, Seq<char>)> {
    let e = index_of(nodes_pairs(nodes, nodes.len() as int));
    let ts = nodes.map_values(|n: Node| crate::link::resolver::target_of(n));
    notes_items(nodes, all_pages(nodes), ts, nodes.len() as int)
        + seq![("tags/index.md"@, tag_index_text(e))]
        + tag_items(e, nodes)
        + seq![
            ("headings/index.md"@, headings_index_text(nodes)),
            ("links/index.md"@, links_text(all_pages(nodes), g, sort_pages(all_pages(nodes)))),
            ("_unresolved.md"@, unresolved_text(unresolved, ukeys)),
        ]
        + site_items(site)
        + seq![("index.md"@, index_text(title, nodes, e.len() as nat, unresolved.len() as nat, names))]
}

/// The choices the pages' own contracts leave to their order: the pages
/// with unresolved links, the directory indexes and the source directories,
/// each in the one order that their contracts allow.
pub open spec fn core_choices(nodes: Seq<Node>, unresolved: Seq<UnresolvedLink>, ukeys: Seq<Seq<char>>, site: Seq<SiteIndexPage>, names: Seq<Seq<char>>) -> bool {
    &&& paths_strict(ukeys) && ukeys.to_set() == page_keys(unresolved)
    &&& exists|secs: Seq<crate::render::site_index::Comps>, eds: Seq<crate::render::site_index::Comps>| #[trigger] site_indexes_are(nodes, secs, eds, site)
    &&& texts_strict(names) && names.to_set() == source_dirs(nodes).to_set()
}

fn put(plan: &mut OutputPlan, path: String, body: &str, Ghost(items): Ghost<Seq<(Seq<char>, Seq<char>)>>)
    requires
        old(plan).wf(),
        old(plan)@ == insert_all(PlanV::empty(), items),
    ensures
        final(plan).wf(),
        final(plan)@ == insert_all(PlanV::empty(), items.push((path@, body@))),
{
    insert_text(plan, path, body);
    assert(items.push((path@, body@)).drop_last() =~= items);
    reveal(insert_all);
}

fn put_pages(plan: &mut OutputPlan, pages: &Vec<PageRender>, Ghost(items): Ghost<Seq<(Seq<char>, Seq<char>)>>)
    requires
        old(plan).wf(),
        old(plan)@ == insert_all(PlanV::empty(), items),
    ensures
        final(plan).wf(),
        final(plan)@ == insert_all(PlanV::empty(), items + renders_view(pages@)),
{
    let ghost want = renders_view(pages@);
    let ghost mut cur = items;
    let mut k: usize = 0;
    assert(items + want.take(0) =~= items);
    while k < pages.len()
        invariant
            k <= pages@.len(),
            plan.wf(),
            want == renders_view(pages@),
            cur == items + want.take(k as int),
            plan@ == insert_all(PlanV::empty(), cur),
        decreases pages@.len() - k,
    {
        let p = &pages[k];
        assert(want[k as int] == (p.output_path@, p.body@));
        put(plan, p.output_path.clone(), p.body.as_str(), Ghost(cur));
        proof {
            cur = cur.push((p.output_path@, p.body@));
            assert(items + want.take(k + 1) =~= cur);
        }
        k = k + 1;
    }
    assert(want.take(pages@.len() as int) =~= want);
}

#[verifier::spinoff_prover]
#[verifier::rlimit(80)]
fn put_notes(
    plan: &mut OutputPlan,
    nodes: &[Node],
    titles: &Vec<(String, String)>,
    resolver: &Resolver,
    Ghost(items): Ghost<Seq<(Seq<char>, Seq<char>)>>,
)
    requires
        old(plan).wf(),
        old(plan)@ == insert_all(PlanV::empty(), items),
    ensures
        final(plan).wf(),
        final(plan)@ == insert_all(PlanV::empty(), items + notes_items(nodes@, titles_view(titles@), resolver@, nodes@.len() as int)),
{
    let ghost tv = titles_view(titles@);
    let ghost ts = resolver@;
    let ghost start = items;
    let ghost mut items = items;
    let mut i: usize = 0;
    assert(start + notes_items(nodes@, tv, ts, 0) =~= start);
    while i < nodes.len()
        invariant
            i <= nodes@.len(),
            plan.wf(),
            tv == titles_view(titles@),
            ts == resolver@,
            items == start + notes_items(nodes@, tv, ts, i as int),
            plan@ == insert_all(PlanV::empty(), items),
        decreases nodes@.len() - i,
    {
        let pages = render_pages(&nodes[i], titles, resolver);
        let ghost want = node_pages(nodes@[i as int], tv, ts);
        put_pages(plan, &pages, Ghost(items));
        proof {
            assert(notes_items(nodes@, tv, ts, i + 1) == notes_items(nodes@, tv, ts, i as int) + want);
            assert(start + notes_items(nodes@, tv, ts, i + 1) =~= items + want);
            items = items + want;
        }
        i = i + 1;
    }
}

fn put_tags(plan: &mut OutputPlan, nodes: &[Node], tag_index: &crate::render::tags::TagIndex, Ghost(items): Ghost<Seq<(Seq<char>, Seq<char>)>>)
    requires
        old(plan).wf(),
        old(plan)@ == insert_all(PlanV::empty(), items),
        crate::render::tags::tags_named(tag_index@),
    ensures
        final(plan).wf(),
        final(plan)@ == insert_all(PlanV::empty(), items + seq![("tags/index.md"@, tag_index_text(tag_index@))] + tag_items(tag_index@, nodes@)),
{
    let ghost e = tag_index@;
    put(plan, from_chars(&to_chars("tags/index.md")), render_tag_index_page(tag_index).as_str(), Ghost(items));
    let ghost before_tags = items + seq![("tags/index.md"@, tag_index_text(e))];
    assert(items.push(("tags/index.md"@, tag_index_text(e))) =~= before_tags);
    let ghost mut cur = before_tags;
    let mut k: usize = 0;
    assert(before_tags + tag_items(e, nodes@).take(0) =~= before_tags);
    while k < tag_index.entries.len()
        invariant
            k <= tag_index.entries@.len(),
            plan.wf(),
            e == tag_index@,
            crate::render::tags::tags_named(e),
            cur == before_tags + tag_items(e, nodes@).take(k as int),
            plan@ == insert_all(PlanV::empty(), cur),
        decreases tag_index.entries@.len() - k,
    {
        let ent = &tag_index.entries[k];
        assert(e[k as int] == (ent.0@, sv(ent.1@)));
        assert(crate::render::tags::tag_parts(e[k as int].0).len() > 0);
        let path = tag_page_path(ent.0.as_str());
        let body = render_tag_page(ent.0.as_str(), ent.1.as_slice(), nodes);
        put(plan, path, body.as_str(), Ghost(cur));
        proof {
            cur = cur.push((tag_path_of(ent.0@), tag_page_text(ent.0@, sv(ent.1@), nodes@)));
            assert(before_tags + tag_items(e, nodes@).take(k + 1) =~= cur);
        }
        k = k + 1;
    }
    assert(tag_items(e, nodes@).take(tag_index.entries@.len() as int) =~= tag_items(e, nodes@));
}

fn put_site(plan: &mut OutputPlan, site: &Vec<SiteIndexPage>, Ghost(items): Ghost<Seq<(Seq<char>, Seq<char>)>>)
    requires
        old(plan).wf(),
        old(plan)@ == insert_all(PlanV::empty(), items),
    ensures
        final(plan).wf(),
        final(plan)@ == insert_all(PlanV::empty(), items + site_items(site@)),
{
    let ghost mut cur = items;
    let mut j: usize = 0;
    assert(items + site_items(site@).take(0) =~= items);
    while j < site.len()
        invariant
            j <= site@.len(),
            plan.wf(),
            cur == items + site_items(site@).take(j as int),
            plan@ == insert_all(PlanV::empty(), cur),
        decreases site@.len() - j,
    {
        let p = &site[j];
        put(plan, p.output_path.clone(), p.body.as_str(), Ghost(cur));
        proof {
            cur = cur.push((p.output_path@, p.body@));
            assert(items + site_items(site@).take(j + 1) =~= cur);
        }
        j = j + 1;
    }
    assert(site_items(site@).take(site@.len() as int) =~= site_items(site@));
}

/// The plan of a wiki's pages: every page put at its path, in the order of
/// `core_items` (a later page at the same path replaces an earlier one).
#[verifier::spinoff_prover]
#[verifier::rlimit(100)]
pub fn build_core_wiki_plan(out: &WikiOutput) -> (r: OutputPlan)
    requires
        all_leaves(out.nodes@) <= usize::MAX,
    ensures
        r.wf(),
        exists|ukeys: Seq<Seq<char>>, site: Seq<SiteIndexPage>, names: Seq<Seq<char>>|
            core_choices(out.nodes@, out.unresolved@, ukeys, site, names)
            && r@ == #[trigger] insert_all(PlanV::empty(), core_items(out.project_title@, out.nodes@, out.unresolved@, *out.graph, ukeys, site, names)),
{
    let nodes = out.nodes;
    let mut plan = OutputPlan::new();
    let ghost ts = nodes@.map_values(|n: Node| crate::link::resolver::target_of(n));
    assert(plan@ =~= insert_all(PlanV::empty(), Seq::<(Seq<char>, Seq<char>)>::empty())) by {
        reveal(insert_all);
    }
    let (_, titles) = collect_pages(nodes);
    let resolver = Resolver::build(nodes);
    put_notes(&mut plan, nodes, &titles, &resolver, Ghost(Seq::<(Seq<char>, Seq<char>)>::empty()));
    assert(resolver@ == ts);
    let ghost a = Seq::<(Seq<char>, Seq<char>)>::empty() + notes_items(nodes@, all_pages(nodes@), ts, nodes@.len() as int);
    let tag_index = build_tag_index(nodes);
    let ghost e = tag_index@;
    proof {
        lemma_built_index_named(nodes@);
    }
    put_tags(&mut plan, nodes, &tag_index, Ghost(a));
    let ghost b = a + seq![("tags/index.md"@, tag_index_text(e))] + tag_items(e, nodes@);
    let headings = render_headings_index(nodes);
    put(&mut plan, from_chars(&to_chars("headings/index.md")), headings.as_str(), Ghost(b));
    let ghost c = b.push(("headings/index.md"@, headings_index_text(nodes@)));
    let links = render_links_index(nodes, out.graph);
    put(&mut plan, from_chars(&to_chars("links/index.md")), links.as_str(), Ghost(c));
    let ghost d = c.push(("links/index.md"@, links_text(all_pages(nodes@), *out.graph, sort_pages(all_pages(nodes@)))));
    let unresolved_body = render_unresolved(out.unresolved);
    let ghost ukeys = choose|keys: Seq<Seq<char>>| paths_strict(keys) && keys.to_set() == page_keys(out.unresolved@)
        && unresolved_body@ == #[trigger] unresolved_text(out.unresolved@, keys);
    put(&mut plan, from_chars(&to_chars("_unresolved.md")), unresolved_body.as_str(), Ghost(d));
    let ghost f = d.push(("_unresolved.md"@, unresolved_text(out.unresolved@, ukeys)));
    let site = render_site_indexes(nodes);
    put_site(&mut plan, &site, Ghost(f));
    let ghost g = f + site_items(site@);
    let index_body = render_index(out.project_title, nodes, out.unresolved, &tag_index);
    let ghost names = choose|names: Seq<Seq<char>>| texts_strict(names) && names.to_set() == source_dirs(nodes@).to_set()
        && index_body@ == #[trigger] index_text(out.project_title@, nodes@, tag_index.entries@.len() as nat, out.unresolved@.len() as nat, names);
    put(&mut plan, from_chars(&to_chars("index.md")), index_body.as_str(), Ghost(g));
    proof {
        let h = g.push(("index.md"@, index_text(out.project_title@, nodes@, e.len() as nat, out.unresolved@.len() as nat, names)));
        assert(h =~= core_items(out.project_title@, nodes@, out.unresolved@, *out.graph, ukeys, site@, names));
        assert(core_choices(nodes@, out.unresolved@, ukeys, site@, names));
    }
    plan
}

} // verus!
