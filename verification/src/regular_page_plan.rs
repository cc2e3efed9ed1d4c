//! Page plans for regular notes: an entry page, then one leaf per h2
//! fragment, or a shell page and its h3 leaves, with parent / prev / next
//! links that point inside the note's own directory.
use vstd::prelude::*;
use crate::fragment::{children_view, fragments_view, Fragment, FragmentModel};
use crate::large_markdown::{plans_view, PageKind, PagePlan, PlanV, SplitReason};
use crate::model::Node;
use crate::paths::{fragment_leaf_path, h3_leaf_path, index_md, join2, md_ext, shell_index_path};
use crate::strs::sv;

verus! {

/// A plan with no byte or line ranges, split at a heading.
pub open spec fn heading_plan(
    page_id: Seq<char>,
    kind: PageKind,
    output_path: Seq<char>,
    source: Seq<char>,
    section_path: Seq<Seq<char>>,
    parent: Option<Seq<char>>,
    prev: Option<Seq<char>>,
    next: Option<Seq<char>>,
    chars: nat,
) -> PlanV {
    PlanV {
        page_id,
        page_kind: kind,
        output_path,
        source_path: Some(source),
        section_path,
        byte_ranges: seq![],
        line_ranges: seq![],
        split_reason: SplitReason::Heading,
        parent,
        prev,
        next,
        estimated_chars: chars as usize,
    }
}

/// Where a leaf's neighbour link points for fragment `f`: `<slug>.md` for an
/// h2 leaf, `<slug>/index.md` for a shell.
pub open spec fn relative_target(f: FragmentModel) -> Seq<char> {
    match f {
        FragmentModel::H2 { slug, .. } => slug + md_ext(),
        FragmentModel::Shell { slug, .. } => join2(slug, index_md()),
    }
}

/// The link to fragment `k` of `fs`, if there is one.
pub open spec fn neighbor(fs: Seq<FragmentModel>, k: int) -> Option<Seq<char>> {
    if 0 <= k < fs.len() {
        Some(relative_target(fs[k]))
    } else {
        None
    }
}

/// The link to child `k` of `cs`, if there is one.
pub open spec fn child_neighbor(cs: Seq<(Seq<char>, Seq<char>, Seq<char>)>, k: int) -> Option<Seq<char>> {
    if 0 <= k < cs.len() {
        Some(cs[k].1 + md_ext())
    } else {
        None
    }
}

/// The plan of child `j` of shell `slug` (heading `heading`) of node `n`.
pub open spec fn child_plan(
    n: Node,
    slug: Seq<char>,
    heading: Seq<char>,
    cs: Seq<(Seq<char>, Seq<char>, Seq<char>)>,
    j: int,
) -> PlanV {
    heading_plan(
        n.output_path@ + ":"@ + slug + ":"@ + cs[j].1,
        PageKind::Leaf,
        join2(join2(n.entry_dir@, slug), cs[j].1 + md_ext()),
        n.note.source_file@,
        seq![n.title@, heading, cs[j].0],
        Some(index_md()),
        child_neighbor(cs, j - 1),
        child_neighbor(cs, j + 1),
        cs[j].2.len(),
    )
}

/// The plans of the first `j` children of a shell.
pub open spec fn child_plans(
    n: Node,
    slug: Seq<char>,
    heading: Seq<char>,
    cs: Seq<(Seq<char>, Seq<char>, Seq<char>)>,
    j: int,
) -> Seq<PlanV>
    decreases j,
{
    if j <= 0 {
        seq![]
    } else {
        child_plans(n, slug, heading, cs, j - 1).push(child_plan(n, slug, heading, cs, j - 1))
    }
}

/// The plans of fragment `k` of node `n`.
pub open spec fn fragment_plans(n: Node, fs: Seq<FragmentModel>, k: int) -> Seq<PlanV> {
    match fs[k] {
        FragmentModel::H2 { heading, slug, body } => seq![heading_plan(
            n.output_path@ + ":"@ + slug,
            PageKind::Leaf,
            join2(n.entry_dir@, slug + md_ext()),
            n.note.source_file@,
            seq![n.title@, heading],
            Some(index_md()),
            neighbor(fs, k - 1),
            neighbor(fs, k + 1),
            body.len(),
        )],
        FragmentModel::Shell { heading, slug, preface, children } => seq![heading_plan(
            n.output_path@ + ":"@ + slug + ":shell"@,
            PageKind::Shell,
            join2(join2(n.entry_dir@, slug), index_md()),
            n.note.source_file@,
            seq![n.title@, heading],
            Some(index_md()),
            None,
            None,
            preface.len(),
        )] + child_plans(n, slug, heading, children, children.len() as int),
    }
}

/// The plans of the first `k` fragments of node `n`.
pub open spec fn fragments_plans(n: Node, fs: Seq<FragmentModel>, k: int) -> Seq<PlanV>
    decreases k,
{
    if k <= 0 {
        seq![]
    } else {
        fragments_plans(n, fs, k - 1) + fragment_plans(n, fs, k - 1)
    }
}

/// All plans of a node: its entry page first, then each fragment's pages in order.
pub open spec fn node_plans(n: Node) -> Seq<PlanV> {
    let fs = fragments_view(n.fragments.fragments@);
    seq![heading_plan(
        n.output_path@ + ":entry"@,
        PageKind::Entry,
        n.output_path@,
        n.note.source_file@,
        seq![n.title@],
        None,
        None,
        None,
        n.fragments.preface@.len(),
    )] + fragments_plans(n, fs, fs.len() as int)
}

/// The plans of the first `k` nodes, node after node.
pub open spec fn nodes_plans(nodes: Seq<Node>, k: int) -> Seq<PlanV>
    decreases k,
{
    if k <= 0 {
        seq![]
    } else {
        nodes_plans(nodes, k - 1) + node_plans(nodes[k - 1])
    }
}

fn text(s: &str) -> (r: String)
    ensures
        r@ == s@,
{
    String::from_str(s)
}

fn cat(a: &str, b: &str) -> (r: String)
    ensures
        r@ == a@ + b@,
{
    let mut s = String::from_str(a);
    s.append(b);
    s
}

fn chars_count(s: &str) -> (r: usize)
    ensures
        r as nat == s@.len(),
{
    s.unicode_len()
}

fn push_plan(out: &mut Vec<PagePlan>, p: PagePlan)
    ensures
        plans_view(final(out)@) == plans_view(old(out)@).push(p@),
{
    let ghost before = plans_view(out@);
    out.push(p);
    assert(plans_view(out@) =~= before.push(p@));
}

fn one(s: String) -> (r: Vec<String>)
    ensures
        sv(r@) == seq![s@],
{
    let mut v: Vec<String> = Vec::new();
    v.push(s);
    assert(sv(v@) =~= seq![s@]);
    v
}

fn two(a: String, b: String) -> (r: Vec<String>)
    ensures
        sv(r@) == seq![a@, b@],
{
    let mut v: Vec<String> = Vec::new();
    v.push(a);
    v.push(b);
    assert(sv(v@) =~= seq![a@, b@]);
    v
}

fn three(a: String, b: String, c: String) -> (r: Vec<String>)
    ensures
        sv(r@) == seq![a@, b@, c@],
{
    let mut v: Vec<String> = Vec::new();
    v.push(a);
    v.push(b);
    v.push(c);
    assert(sv(v@) =~= seq![a@, b@, c@]);
    v
}

fn index_md_string() -> (r: String)
    ensures
        r@ == index_md(),
{
    let idx = ['i', 'n', 'd', 'e', 'x', '.', 'm', 'd'];
    assert(idx@ =~= index_md());
    crate::strs::from_chars(&idx)
}

fn md_name(slug: &str) -> (r: String)
    ensures
        r@ == slug@ + md_ext(),
{
    let mut v = crate::strs::to_chars(slug);
    crate::strs::push_all(&mut v, &['.', 'm', 'd']);
    assert(v@ =~= slug@ + md_ext());
    crate::strs::from_chars(&v)
}

/// The link target of fragment `idx` of a node, relative to the node's directory.
fn relative_fragment_target(idx: usize, node: &Node) -> (r: String)
    requires
        idx < node.fragments.fragments@.len(),
    ensures
        r@ == relative_target(fragments_view(node.fragments.fragments@)[idx as int]),
{
    match &node.fragments.fragments[idx] {
        Fragment::H2 { slug, .. } => md_name(slug.as_str()),
        Fragment::Shell { slug, .. } => {
            let d = crate::strs::to_chars(slug.as_str());
            let idx_md = crate::strs::to_chars(index_md_string().as_str());
            crate::strs::from_chars(&crate::paths::join2_exec(&d, &idx_md))
        },
    }
}

fn fragment_neighbor(node: &Node, k: usize, present: bool) -> (r: Option<String>)
    requires
        present ==> k < node.fragments.fragments@.len(),
    ensures
        opt_view(r) == if present { Some(relative_target(fragments_view(node.fragments.fragments@)[k as int])) } else { None },
{
    if present {
        Some(relative_fragment_target(k, node))
    } else {
        None
    }
}

/// The view of an optional text.
pub open spec fn opt_view(o: Option<String>) -> Option<Seq<char>> {
    match o {
        Some(s) => Some(s@),
        None => None,
    }
}

fn push_children(
    node: &Node,
    slug: &String,
    heading: &String,
    children: &Vec<crate::fragment::H3Fragment>,
    out: &mut Vec<PagePlan>,
)
    ensures
        plans_view(final(out)@) == plans_view(old(out)@) + child_plans(*node, slug@, heading@, children_view(children@), children@.len() as int),
{
    let ghost start = plans_view(out@);
    let ghost cs = children_view(children@);
    let mut j: usize = 0;
    assert(start + child_plans(*node, slug@, heading@, cs, 0) =~= start);
    while j < children.len()
        invariant
            j <= children@.len(),
            cs == children_view(children@),
            plans_view(out@) == start + child_plans(*node, slug@, heading@, cs, j as int),
        decreases children@.len() - j,
    {
        let c = &children[j];
        assert(cs[j as int] == c@);
        let mut id = cat(node.output_path.as_str(), ":");
        id.append(slug.as_str());
        id.append(":");
        id.append(c.slug.as_str());
        let prev = if j > 0 {
            assert(cs[j - 1] == children@[j - 1]@);
            Some(md_name(children[j - 1].slug.as_str()))
        } else {
            None
        };
        let next = if j + 1 < children.len() {
            assert(cs[j + 1] == children@[j + 1]@);
            Some(md_name(children[j + 1].slug.as_str()))
        } else {
            None
        };
        let p = PagePlan {
            page_id: id,
            page_kind: PageKind::Leaf,
            output_path: h3_leaf_path(node.entry_dir.as_str(), slug.as_str(), c.slug.as_str()),
            source_path: Some(node.note.source_file.clone()),
            section_path: three(node.title.clone(), heading.clone(), c.heading.clone()),
            byte_ranges: Vec::new(),
            line_ranges: Vec::new(),
            split_reason: SplitReason::Heading,
            parent: Some(index_md_string()),
            prev,
            next,
            estimated_chars: chars_count(c.body.as_str()),
        };
        assert(p@ == child_plan(*node, slug@, heading@, cs, j as int)) by {
            assert(p@.byte_ranges =~= Seq::<crate::large_markdown::ByteRange>::empty());
            assert(p@.line_ranges =~= Seq::<crate::large_markdown::LineRange>::empty());
        }
        push_plan(out, p);
        assert(start + child_plans(*node, slug@, heading@, cs, j + 1) =~= (start + child_plans(*node, slug@, heading@, cs, j as int)).push(
            child_plan(*node, slug@, heading@, cs, j as int)));
        j = j + 1;
    }
}

fn push_fragment(node: &Node, k: usize, out: &mut Vec<PagePlan>)
    requires
        k < node.fragments.fragments@.len(),
    ensures
        plans_view(final(out)@) == plans_view(old(out)@) + fragment_plans(*node, fragments_view(node.fragments.fragments@), k as int),
{
    let ghost fs = fragments_view(node.fragments.fragments@);
    let ghost start = plans_view(out@);
    let n = node.fragments.fragments.len();
    assert(fs[k as int] == node.fragments.fragments@[k as int]@);
    match &node.fragments.fragments[k] {
        Fragment::H2 { slug, heading, body } => {
            let mut id = cat(node.output_path.as_str(), ":");
            id.append(slug.as_str());
            let prev = fragment_neighbor(node, if k > 0 { k - 1 } else { 0 }, k > 0);
            let next = fragment_neighbor(node, k + 1, k + 1 < n);
            let p = PagePlan {
                page_id: id,
                page_kind: PageKind::Leaf,
                output_path: fragment_leaf_path(node.entry_dir.as_str(), slug.as_str()),
                source_path: Some(node.note.source_file.clone()),
                section_path: two(node.title.clone(), heading.clone()),
                byte_ranges: Vec::new(),
                line_ranges: Vec::new(),
                split_reason: SplitReason::Heading,
                parent: Some(index_md_string()),
                prev,
                next,
                estimated_chars: chars_count(body.as_str()),
            };
            assert(p@ == fragment_plans(*node, fs, k as int)[0]) by {
                assert(p@.byte_ranges =~= Seq::<crate::large_markdown::ByteRange>::empty());
                assert(p@.line_ranges =~= Seq::<crate::large_markdown::LineRange>::empty());
            }
            push_plan(out, p);
            assert(plans_view(out@) =~= start + fragment_plans(*node, fs, k as int));
        },
        Fragment::Shell { slug, heading, preface, children } => {
            let mut id = cat(node.output_path.as_str(), ":");
            id.append(slug.as_str());
            id.append(":shell");
            let p = PagePlan {
                page_id: id,
                page_kind: PageKind::Shell,
                output_path: shell_index_path(node.entry_dir.as_str(), slug.as_str()),
                source_path: Some(node.note.source_file.clone()),
                section_path: two(node.title.clone(), heading.clone()),
                byte_ranges: Vec::new(),
                line_ranges: Vec::new(),
                split_reason: SplitReason::Heading,
                parent: Some(index_md_string()),
                prev: None,
                next: None,
                estimated_chars: chars_count(preface.as_str()),
            };
            let ghost pv = p@;
            assert(pv.byte_ranges =~= Seq::<crate::large_markdown::ByteRange>::empty());
            assert(pv.line_ranges =~= Seq::<crate::large_markdown::LineRange>::empty());
            push_plan(out, p);
            push_children(node, slug, heading, children, out);
            assert(plans_view(out@) =~= start + fragment_plans(*node, fs, k as int));
        },
    }
}

/// The plans of one node: its entry page, then its fragments' pages in order.
fn plan_node(node: &Node) -> (r: Vec<PagePlan>)
    ensures
        plans_view(r@) == node_plans(*node),
{
    let mut out: Vec<PagePlan> = Vec::new();
    let entry = PagePlan {
        page_id: cat(node.output_path.as_str(), ":entry"),
        page_kind: PageKind::Entry,
        output_path: node.output_path.clone(),
        source_path: Some(node.note.source_file.clone()),
        section_path: one(node.title.clone()),
        byte_ranges: Vec::new(),
        line_ranges: Vec::new(),
        split_reason: SplitReason::Heading,
        parent: None,
        prev: None,
        next: None,
        estimated_chars: chars_count(node.fragments.preface.as_str()),
    };
    let ghost ev = entry@;
    assert(ev.byte_ranges =~= Seq::<crate::large_markdown::ByteRange>::empty());
    assert(ev.line_ranges =~= Seq::<crate::large_markdown::LineRange>::empty());
    push_plan(&mut out, entry);
    let ghost first = plans_view(out@);
    let ghost fs = fragments_view(node.fragments.fragments@);
    let mut k: usize = 0;
    assert(first + fragments_plans(*node, fs, 0) =~= first);
    while k < node.fragments.fragments.len()
        invariant
            k <= node.fragments.fragments@.len(),
            fs == fragments_view(node.fragments.fragments@),
            plans_view(out@) == first + fragments_plans(*node, fs, k as int),
        decreases node.fragments.fragments@.len() - k,
    {
        push_fragment(node, k, &mut out);
        assert(first + fragments_plans(*node, fs, k + 1) =~= first + fragments_plans(*node, fs, k as int) + fragment_plans(*node, fs, k as int));
        k = k + 1;
    }
    assert(plans_view(out@) =~= node_plans(*node));
    out
}

/// The page plans of the regular notes: for each node its entry page, then its
/// fragment pages in order.
pub fn plan_regular_pages(nodes: &[Node]) -> (r: Vec<PagePlan>)
    ensures
        plans_view(r@) == nodes_plans(nodes@, nodes@.len() as int),
{
    let mut plans: Vec<PagePlan> = Vec::new();
    let mut i: usize = 0;
    assert(plans_view(plans@) =~= nodes_plans(nodes@, 0));
    while i < nodes.len()
        invariant
            i <= nodes@.len(),
            plans_view(plans@) == nodes_plans(nodes@, i as int),
        decreases nodes@.len() - i,
    {
        let mut more = plan_node(&nodes[i]);
        let ghost before = plans_view(plans@);
        let ghost add = plans_view(more@);
        plans.append(&mut more);
        assert(plans_view(plans@) =~= before + add);
        i = i + 1;
    }
    plans
}

} // verus!
