//! The body of the root `index.md`: a summary of the whole site, the ways
//! into it, and a bounded preview of its contents.
use vstd::prelude::*;
use crate::context_pack::{sorted_unique, texts_strict};
use crate::link::resolver::UnresolvedLink;
use crate::model::Node;
use crate::notes::headings::Heading;
use crate::num::{decimal, decimal_chars};
use crate::paths::{components, components_exec};
use crate::render::site_index::{all_leaves, lemma_all_leaves_prefix, node_leaf_count, node_leaves};
use crate::render::tags::TagIndex;
use crate::strs::{chars_eq, from_chars, push_all, push_string, split_chars, split_on, sv, to_chars, vv};

verus! {

broadcast use vstd::seq_lib::group_seq_properties;

/// How many directories the preview names at most, and how many headings.
pub const PREVIEW_LIMIT: usize = 12;

// ---------------------------------------------------------------------------
// Top-level directories of sources
// ---------------------------------------------------------------------------

/// The number of components `Path` sees in a path: a leading root or `.`,
/// then every segment that is neither empty nor `.`.
pub open spec fn path_comp_count(p: Seq<char>) -> nat {
    let segs = split_on(p, '/');
    let lead: nat = if p.len() > 0 && p[0] == '/' { 1 } else if segs.len() > 0 && segs[0] == seq!['.'] { 1 } else { 0 };
    lead + named_segments(segs)
}

/// Segments that are neither empty nor `.`.
pub open spec fn named_segments(segs: Seq<Seq<char>>) -> nat
    decreases segs.len(),
{
    if segs.len() == 0 {
        0
    } else {
        named_segments(segs.drop_last()) + if segs.last().len() > 0 && segs.last() != seq!['.'] { 1nat } else { 0nat }
    }
}

/// The directory a source lies under at the top: its first named component
/// when it has a parent directory, else none.
pub open spec fn top_dir(p: Seq<char>) -> Option<Seq<char>> {
    if path_comp_count(p) > 1 && components(p).len() > 0 {
        Some(components(p)[0])
    } else {
        None
    }
}

fn top_dir_exec(p: &str) -> (r: Option<Vec<char>>)
    ensures
        match r {
            Some(d) => top_dir(p@) == Some(d@),
            None => top_dir(p@) is None,
        },
{
    let v = to_chars(p);
    let segs = split_chars(&v, '/');
    let dot = ['.'];
    assert(dot@ =~= seq!['.']);
    let mut lead: usize = 0;
    if v.len() > 0 && v[0] == '/' {
        lead = 1;
    } else if segs.len() > 0 && chars_eq(&segs[0], &dot) {
        lead = 1;
    }
    let mut named: usize = 0;
    let mut i: usize = 0;
    while i < segs.len()
        invariant
            i <= segs@.len(),
            vv(&segs) == split_on(p@, '/'),
            dot@ == seq!['.'],
            named == named_segments(vv(&segs).take(i as int)),
            named <= i,
        decreases segs@.len() - i,
    {
        assert(vv(&segs).take(i + 1).drop_last() =~= vv(&segs).take(i as int));
        assert(vv(&segs).take(i + 1).last() == segs@[i as int]@);
        if segs[i].len() > 0 && !chars_eq(&segs[i], &dot) {
            named = named + 1;
        }
        i = i + 1;
    }
    assert(vv(&segs).take(segs@.len() as int) =~= vv(&segs));
    assert(vv(&segs).len() == segs@.len());
    let cs = components_exec(&v);
    if ((lead == 1 && named >= 1) || named > 1) && cs.len() > 0 {
        let c = &cs[0];
        assert(vv(&cs)[0] == c@);
        assert(c@.subrange(0, c@.len() as int) =~= c@);
        Some(crate::strs::slice_copy(c, 0, c.len()))
    } else {
        None
    }
}

// ---------------------------------------------------------------------------
// Buckets
// ---------------------------------------------------------------------------

/// The top-level directories of the sources that lie in one.
pub open spec fn source_dirs(nodes: Seq<Node>) -> Seq<Seq<char>>
    decreases nodes.len(),
{
    if nodes.len() == 0 {
        seq![]
    } else {
        let r = source_dirs(nodes.drop_last());
        match top_dir(nodes.last().note.source_file@) {
            Some(d) => r.push(d),
            None => r,
        }
    }
}

/// The notes whose source lies under `d` (or, for `None`, at the top), and
/// their fragment pages.
pub open spec fn bucket(nodes: Seq<Node>, d: Option<Seq<char>>) -> (nat, nat)
    decreases nodes.len(),
{
    if nodes.len() == 0 {
        (0, 0)
    } else {
        let r = bucket(nodes.drop_last(), d);
        if top_dir(nodes.last().note.source_file@) == d {
            (r.0 + 1, r.1 + node_leaves(nodes.last()))
        } else {
            r
        }
    }
}

proof fn lemma_bucket_bound(nodes: Seq<Node>, d: Option<Seq<char>>)
    ensures
        bucket(nodes, d).0 <= nodes.len(),
        bucket(nodes, d).1 <= all_leaves(nodes),
    decreases nodes.len(),
{
    if nodes.len() > 0 {
        lemma_bucket_bound(nodes.drop_last(), d);
    }
}

fn bucket_exec(nodes: &[Node], leaves: &Vec<usize>, tops: &Vec<Option<Vec<char>>>, d: &Option<Vec<char>>) -> (r: (usize, usize))
    requires
        leaves@.len() == nodes@.len(),
        tops@.len() == nodes@.len(),
        forall|i: int| 0 <= i < nodes@.len() ==> leaves@[i] == node_leaves(#[trigger] nodes@[i]),
        forall|i: int| 0 <= i < nodes@.len() ==> opt_chars(#[trigger] tops@[i]) == top_dir(nodes@[i].note.source_file@),
        all_leaves(nodes@) <= usize::MAX,
    ensures
        r.0 == bucket(nodes@, opt_chars(*d)).0,
        r.1 == bucket(nodes@, opt_chars(*d)).1,
{
    let mut a: usize = 0;
    let mut b: usize = 0;
    let mut i: usize = 0;
    while i < nodes.len()
        invariant
            i <= nodes@.len() == leaves@.len() == tops@.len(),
            forall|j: int| 0 <= j < nodes@.len() ==> leaves@[j] == node_leaves(#[trigger] nodes@[j]),
            forall|j: int| 0 <= j < nodes@.len() ==> opt_chars(#[trigger] tops@[j]) == top_dir(nodes@[j].note.source_file@),
            all_leaves(nodes@) <= usize::MAX,
            (a as nat, b as nat) == bucket(nodes@.take(i as int), opt_chars(*d)),
        decreases nodes@.len() - i,
    {
        let ghost t = nodes@.take(i + 1);
        assert(t.drop_last() =~= nodes@.take(i as int));
        assert(t.last() == nodes@[i as int]);
        proof {
            lemma_bucket_bound(t, opt_chars(*d));
            lemma_all_leaves_prefix(nodes@, i + 1);
        }
        let same = match (&tops[i], d) {
            (Some(x), Some(y)) => chars_eq(x, y),
            (None, None) => true,
            _ => false,
        };
        assert(same == (opt_chars(tops@[i as int]) == opt_chars(*d)));
        if same {
            a = a + 1;
            b = b + leaves[i];
        }
        i = i + 1;
    }
    assert(nodes@.take(nodes@.len() as int) =~= nodes@);
    (a, b)
}

pub open spec fn opt_chars(o: Option<Vec<char>>) -> Option<Seq<char>> {
    match o {
        Some(v) => Some(v@),
        None => None,
    }
}

// ---------------------------------------------------------------------------
// Headings preview
// ---------------------------------------------------------------------------

/// The texts of the h1 and h2 headings of the nodes, in order.
pub open spec fn top_headings(nodes: Seq<Node>) -> Seq<Seq<char>>
    decreases nodes.len(),
{
    if nodes.len() == 0 {
        seq![]
    } else {
        top_headings(nodes.drop_last()) + upper_headings(nodes.last().note.headings@)
    }
}

pub open spec fn upper_headings(hs: Seq<Heading>) -> Seq<Seq<char>>
    decreases hs.len(),
{
    if hs.len() == 0 {
        seq![]
    } else {
        let r = upper_headings(hs.drop_last());
        if hs.last().level <= 2 {
            r.push(hs.last().text@)
        } else {
            r
        }
    }
}

/// The first `PREVIEW_LIMIT` h1 and h2 headings.
pub open spec fn preview_headings(nodes: Seq<Node>) -> Seq<Seq<char>> {
    let all = top_headings(nodes);
    if all.len() <= PREVIEW_LIMIT {
        all
    } else {
        all.take(PREVIEW_LIMIT as int)
    }
}

proof fn lemma_upper_push(hs: Seq<Heading>, k: int)
    requires
        0 <= k < hs.len(),
    ensures
        upper_headings(hs.take(k + 1)) == if hs[k].level <= 2 { upper_headings(hs.take(k)).push(hs[k].text@) } else { upper_headings(hs.take(k)) },
{
    assert(hs.take(k + 1).drop_last() =~= hs.take(k));
}

/// Collect the first `PREVIEW_LIMIT` h1 and h2 headings.
fn preview_headings_exec(nodes: &[Node]) -> (r: Vec<String>)
    ensures
        sv(r@) == preview_headings(nodes@),
{
    let mut out: Vec<String> = Vec::new();
    let mut i: usize = 0;
    while i < nodes.len() && out.len() < PREVIEW_LIMIT
        invariant
            i <= nodes@.len(),
            out@.len() <= PREVIEW_LIMIT,
            out@.len() < PREVIEW_LIMIT ==> sv(out@) == top_headings(nodes@.take(i as int)),
            out@.len() == PREVIEW_LIMIT ==> sv(out@) == top_headings(nodes@.take(i as int)).take(PREVIEW_LIMIT as int)
                && top_headings(nodes@.take(i as int)).len() >= PREVIEW_LIMIT,
        decreases nodes@.len() - i,
    {
        let hs = &nodes[i].note.headings;
        let ghost base = top_headings(nodes@.take(i as int));
        assert(nodes@.take(i + 1).drop_last() =~= nodes@.take(i as int));
        assert(top_headings(nodes@.take(i + 1)) == base + upper_headings(hs@));
        let mut k: usize = 0;
        while k < hs.len() && out.len() < PREVIEW_LIMIT
            invariant
                k <= hs@.len(),
                out@.len() <= PREVIEW_LIMIT,
                out@.len() < PREVIEW_LIMIT ==> sv(out@) == base + upper_headings(hs@.take(k as int)),
                out@.len() == PREVIEW_LIMIT ==> sv(out@) == (base + upper_headings(hs@.take(k as int))).take(PREVIEW_LIMIT as int)
                    && (base + upper_headings(hs@.take(k as int))).len() >= PREVIEW_LIMIT,
            decreases hs@.len() - k,
        {
            proof {
                lemma_upper_push(hs@, k as int);
            }
            if hs[k].level <= 2 {
                push_string(&mut out, hs[k].text.clone());
                assert((base + upper_headings(hs@.take(k + 1))) =~= (base + upper_headings(hs@.take(k as int))).push(hs@[k as int].text@));
            }
            k = k + 1;
        }
        proof {
            assert(hs@.take(hs@.len() as int) =~= hs@);
            if out@.len() == PREVIEW_LIMIT && k < hs@.len() {
                lemma_upper_prefix(hs@, k as int);
                assert((base + upper_headings(hs@.take(k as int))).take(PREVIEW_LIMIT as int) =~= (base + upper_headings(hs@)).take(PREVIEW_LIMIT as int));
            }
        }
        i = i + 1;
    }
    proof {
        if out@.len() == PREVIEW_LIMIT && i < nodes@.len() {
            lemma_top_prefix(nodes@, i as int);
            assert(top_headings(nodes@.take(i as int)).take(PREVIEW_LIMIT as int) =~= top_headings(nodes@).take(PREVIEW_LIMIT as int));
        }
        assert(nodes@.take(nodes@.len() as int) =~= nodes@);
    }
    out
}

/// The h1/h2 texts of a prefix of the headings lead those of all of them.
proof fn lemma_upper_prefix(hs: Seq<Heading>, k: int)
    requires
        0 <= k <= hs.len(),
    ensures
        upper_headings(hs).take(upper_headings(hs.take(k)).len() as int) == upper_headings(hs.take(k)),
        upper_headings(hs.take(k)).len() <= upper_headings(hs).len(),
    decreases hs.len() - k,
{
    if k < hs.len() {
        lemma_upper_prefix(hs, k + 1);
        lemma_upper_push(hs, k);
        let a = upper_headings(hs.take(k));
        let b = upper_headings(hs.take(k + 1));
        let all = upper_headings(hs);
        assert(all.take(a.len() as int) =~= b.take(a.len() as int));
    } else {
        assert(hs.take(k) =~= hs);
    }
}

proof fn lemma_top_prefix(nodes: Seq<Node>, i: int)
    requires
        0 <= i <= nodes.len(),
    ensures
        top_headings(nodes).take(top_headings(nodes.take(i)).len() as int) == top_headings(nodes.take(i)),
        top_headings(nodes.take(i)).len() <= top_headings(nodes).len(),
    decreases nodes.len() - i,
{
    if i < nodes.len() {
        lemma_top_prefix(nodes, i + 1);
        assert(nodes.take(i + 1).drop_last() =~= nodes.take(i));
        let a = top_headings(nodes.take(i));
        let b = top_headings(nodes.take(i + 1));
        let all = top_headings(nodes);
        assert(all.take(a.len() as int) =~= b.take(a.len() as int));
    } else {
        assert(nodes.take(i) =~= nodes);
    }
}

// ---------------------------------------------------------------------------
// The page
// ---------------------------------------------------------------------------

pub open spec fn dir_line(nodes: Seq<Node>, d: Seq<char>) -> Seq<char> {
    "- ["@ + d + "](fragments/"@ + d + "/_index.md) — "@ + decimal(bucket(nodes, Some(d)).0) + " notes, "@
        + decimal(bucket(nodes, Some(d)).1) + " fragments\n"@
}

pub open spec fn dir_lines(nodes: Seq<Node>, ds: Seq<Seq<char>>) -> Seq<char>
    decreases ds.len(),
{
    if ds.len() == 0 {
        seq![]
    } else {
        dir_lines(nodes, ds.drop_last()) + dir_line(nodes, ds.last())
    }
}

/// At most the first `PREVIEW_LIMIT` items.
pub open spec fn capped(s: Seq<Seq<char>>) -> Seq<Seq<char>> {
    if s.len() <= PREVIEW_LIMIT { s } else { s.take(PREVIEW_LIMIT as int) }
}

/// The notes preview: the notes at the top, then the first directories of
/// sources (by name) with their notes and fragment pages.
pub open spec fn notes_preview(nodes: Seq<Node>, names: Seq<Seq<char>>) -> Seq<char> {
    let root = bucket(nodes, None);
    "### Notes\n"@ + "\n"@
        + (if names.len() == 0 && root.0 == 0 { "- _(no notes)_\n"@ } else { ""@ })
        + (if root.0 > 0 { "- Root notes — "@ + decimal(root.0) + " notes, "@ + decimal(root.1) + " fragments\n"@ } else { ""@ })
        + dir_lines(nodes, capped(names))
        + (if names.len() > PREVIEW_LIMIT { "- ... "@ + decimal((names.len() - PREVIEW_LIMIT) as nat) + " more directories\n"@ } else { ""@ })
        + "\n"@
}

pub open spec fn bullets(xs: Seq<Seq<char>>) -> Seq<char>
    decreases xs.len(),
{
    if xs.len() == 0 {
        seq![]
    } else {
        bullets(xs.drop_last()) + "- "@ + xs.last() + "\n"@
    }
}

pub open spec fn headings_preview_text(nodes: Seq<Node>) -> Seq<char> {
    let hs = preview_headings(nodes);
    "### Headings Preview\n"@ + "\n"@ + (if hs.len() == 0 { "- _(no headings)_\n"@ } else { bullets(hs) }) + "\n"@
}

pub open spec fn sections_block() -> Seq<char> {
    "## Sections\n\n- [Agent Guide](agent/index.md)\n- [Notes](fragments/_index.md)\n- [Tags](tags/index.md)\n- [Headings](headings/index.md)\n- [Links](links/index.md)\n\n"@
}

pub open spec fn search_map_block() -> Seq<char> {
    "## Search Map\n\n| Need | Start here |\n|---|---|\n| Agent workflow and reading rules | [Agent Guide](agent/index.md) |\n| Page inventory, source paths, and ranges | [Page Catalog](agent/pages/index.md) |\n| Terms from titles, headings, tags, files, and links | [Term Index](agent/terms/index.md) |\n| Browse note hierarchy | [Notes](fragments/_index.md) |\n| Find h1/h2 headings | [Headings](headings/index.md) |\n| Inspect forward links and backlinks | [Links](links/index.md) |\n| Browse tags | [Tags](tags/index.md) |\n| Check unresolved wikilinks | [_unresolved.md](_unresolved.md) |\n\n"@
}

pub open spec fn summary_block(nodes: Seq<Node>, tags: nat, unresolved: nat) -> Seq<char> {
    "## Summary\n"@ + "\n"@ + "- Notes: "@ + decimal(nodes.len()) + "\n"@ + "- Fragments: "@ + decimal(all_leaves(nodes)) + "\n"@
        + "- Tags: "@ + decimal(tags) + "\n"@ + "- Unresolved links: "@ + decimal(unresolved) + "\n"@ + "\n"@
}

pub open spec fn unresolved_block(unresolved: nat) -> Seq<char> {
    if unresolved > 0 {
        "## Unresolved links\n\n未解決の wikilink が "@ + decimal(unresolved) + " 件あります。詳細は [_unresolved.md](_unresolved.md)。\n"@ + "\n"@
    } else {
        ""@
    }
}

/// The text of the root index, with the source directories `names`.
pub open spec fn index_text(title: Seq<char>, nodes: Seq<Node>, tags: nat, unresolved: nat, names: Seq<Seq<char>>) -> Seq<char> {
    "# "@ + title + "\n"@ + "\n"@ + summary_block(nodes, tags, unresolved) + sections_block() + search_map_block()
        + "## Contents Preview\n"@ + "\n"@ + notes_preview(nodes, names) + headings_preview_text(nodes)
        + unresolved_block(unresolved)
}

fn push_lit(t: &mut Vec<char>, s: &str)
    ensures
        final(t)@ == old(t)@ + s@,
{
    push_all(t, &to_chars(s));
}

fn push_num(t: &mut Vec<char>, n: usize)
    ensures
        final(t)@ == old(t)@ + decimal(n as nat),
{
    push_all(t, &decimal_chars(n));
}

/// Per node: its fragment pages and the top directory of its source.
fn node_facts(nodes: &[Node]) -> (r: (Vec<usize>, Vec<Option<Vec<char>>>))
    ensures
        r.0@.len() == nodes@.len(),
        r.1@.len() == nodes@.len(),
        forall|i: int| 0 <= i < nodes@.len() ==> r.0@[i] == node_leaves(#[trigger] nodes@[i]),
        forall|i: int| 0 <= i < nodes@.len() ==> opt_chars(#[trigger] r.1@[i]) == top_dir(nodes@[i].note.source_file@),
{
    let mut leaves: Vec<usize> = Vec::new();
    let mut tops: Vec<Option<Vec<char>>> = Vec::new();
    let mut i: usize = 0;
    while i < nodes.len()
        invariant
            i <= nodes@.len(),
            leaves@.len() == i,
            tops@.len() == i,
            forall|j: int| 0 <= j < i ==> leaves@[j] == node_leaves(#[trigger] nodes@[j]),
            forall|j: int| 0 <= j < i ==> opt_chars(#[trigger] tops@[j]) == top_dir(nodes@[j].note.source_file@),
        decreases nodes@.len() - i,
    {
        leaves.push(node_leaf_count(&nodes[i]));
        let t = top_dir_exec(nodes[i].note.source_file.as_str());
        assert(opt_chars(t) == top_dir(nodes@[i as int].note.source_file@));
        tops.push(t);
        i = i + 1;
    }
    (leaves, tops)
}

fn total_leaves(nodes: &[Node], leaves: &Vec<usize>) -> (r: usize)
    requires
        leaves@.len() == nodes@.len(),
        forall|i: int| 0 <= i < nodes@.len() ==> leaves@[i] == node_leaves(#[trigger] nodes@[i]),
        all_leaves(nodes@) <= usize::MAX,
    ensures
        r == all_leaves(nodes@),
{
    let mut total: usize = 0;
    let mut i: usize = 0;
    while i < nodes.len()
        invariant
            i <= nodes@.len() == leaves@.len(),
            forall|j: int| 0 <= j < nodes@.len() ==> leaves@[j] == node_leaves(#[trigger] nodes@[j]),
            all_leaves(nodes@) <= usize::MAX,
            total == all_leaves(nodes@.take(i as int)),
        decreases nodes@.len() - i,
    {
        assert(nodes@.take(i + 1).drop_last() =~= nodes@.take(i as int));
        assert(nodes@.take(i + 1).last() == nodes@[i as int]);
        proof {
            lemma_all_leaves_prefix(nodes@, i + 1);
        }
        total = total + leaves[i];
        i = i + 1;
    }
    assert(nodes@.take(nodes@.len() as int) =~= nodes@);
    total
}

fn dir_names(nodes: &[Node], tops: &Vec<Option<Vec<char>>>) -> (r: Vec<String>)
    requires
        tops@.len() == nodes@.len(),
        forall|i: int| 0 <= i < nodes@.len() ==> opt_chars(#[trigger] tops@[i]) == top_dir(nodes@[i].note.source_file@),
    ensures
        sv(r@) == source_dirs(nodes@),
{
    let mut out: Vec<String> = Vec::new();
    let mut i: usize = 0;
    while i < tops.len()
        invariant
            i <= tops@.len() == nodes@.len(),
            forall|j: int| 0 <= j < nodes@.len() ==> opt_chars(#[trigger] tops@[j]) == top_dir(nodes@[j].note.source_file@),
            sv(out@) == source_dirs(nodes@.take(i as int)),
        decreases tops@.len() - i,
    {
        assert(nodes@.take(i + 1).drop_last() =~= nodes@.take(i as int));
        assert(nodes@.take(i + 1).last() == nodes@[i as int]);
        assert(opt_chars(tops@[i as int]) == top_dir(nodes@[i as int].note.source_file@));
        match &tops[i] {
            Some(d) => push_string(&mut out, from_chars(d)),
            None => {},
        }
        i = i + 1;
    }
    assert(nodes@.take(nodes@.len() as int) =~= nodes@);
    out
}

#[verifier::spinoff_prover]
#[verifier::rlimit(50)]
fn notes_preview_exec(nodes: &[Node], leaves: &Vec<usize>, tops: &Vec<Option<Vec<char>>>, names: &Vec<String>) -> (r: Vec<char>)
    requires
        leaves@.len() == nodes@.len(),
        tops@.len() == nodes@.len(),
        forall|i: int| 0 <= i < nodes@.len() ==> leaves@[i] == node_leaves(#[trigger] nodes@[i]),
        forall|i: int| 0 <= i < nodes@.len() ==> opt_chars(#[trigger] tops@[i]) == top_dir(nodes@[i].note.source_file@),
        all_leaves(nodes@) <= usize::MAX,
    ensures
        r@ == notes_preview(nodes@, sv(names@)),
{
    let mut t = to_chars("### Notes\n");
    push_lit(&mut t, "\n");
    let none: Option<Vec<char>> = None;
    let (rn, rf) = bucket_exec(nodes, leaves, tops, &none);
    if names.len() == 0 && rn == 0 {
        push_lit(&mut t, "- _(no notes)_\n");
    } else {
        push_lit(&mut t, "");
    }
    if rn > 0 {
        push_lit(&mut t, "- Root notes — ");
        push_num(&mut t, rn);
        push_lit(&mut t, " notes, ");
        push_num(&mut t, rf);
        push_lit(&mut t, " fragments\n");
    } else {
        push_lit(&mut t, "");
    }
    let ghost head = t@;
    let ghost shown = capped(sv(names@));
    let limit = if names.len() <= PREVIEW_LIMIT { names.len() } else { PREVIEW_LIMIT };
    assert(shown.len() == limit);
    let mut k: usize = 0;
    while k < limit
        invariant
            k <= limit <= names@.len(),
            shown == capped(sv(names@)),
            shown.len() == limit,
            leaves@.len() == nodes@.len(),
            tops@.len() == nodes@.len(),
            forall|i: int| 0 <= i < nodes@.len() ==> leaves@[i] == node_leaves(#[trigger] nodes@[i]),
            forall|i: int| 0 <= i < nodes@.len() ==> opt_chars(#[trigger] tops@[i]) == top_dir(nodes@[i].note.source_file@),
            all_leaves(nodes@) <= usize::MAX,
            t@ == head + dir_lines(nodes@, shown.take(k as int)),
        decreases limit - k,
    {
        assert(shown.take(k + 1).drop_last() =~= shown.take(k as int));
        assert(shown[k as int] == names@[k as int]@);
        let name = to_chars(names[k].as_str());
        let d: Option<Vec<char>> = Some(name.clone());
        let (n, f) = bucket_exec(nodes, leaves, tops, &d);
        let ghost before = t@;
        push_lit(&mut t, "- [");
        push_all(&mut t, &name);
        push_lit(&mut t, "](fragments/");
        push_all(&mut t, &name);
        push_lit(&mut t, "/_index.md) — ");
        push_num(&mut t, n);
        push_lit(&mut t, " notes, ");
        push_num(&mut t, f);
        push_lit(&mut t, " fragments\n");
        assert(t@ =~= before + dir_line(nodes@, shown[k as int]));
        k = k + 1;
    }
    assert(shown.take(limit as int) =~= shown);
    if names.len() > PREVIEW_LIMIT {
        push_lit(&mut t, "- ... ");
        push_num(&mut t, names.len() - PREVIEW_LIMIT);
        push_lit(&mut t, " more directories\n");
    } else {
        push_lit(&mut t, "");
    }
    push_lit(&mut t, "\n");
    assert(t@ =~= notes_preview(nodes@, sv(names@)));
    t
}

fn headings_preview_exec(nodes: &[Node]) -> (r: Vec<char>)
    ensures
        r@ == headings_preview_text(nodes@),
{
    let hs = preview_headings_exec(nodes);
    let mut t = to_chars("### Headings Preview\n");
    push_lit(&mut t, "\n");
    let ghost head = t@;
    if hs.len() == 0 {
        push_lit(&mut t, "- _(no headings)_\n");
    } else {
        let mut k: usize = 0;
        while k < hs.len()
            invariant
                k <= hs@.len(),
                t@ == head + bullets(sv(hs@).take(k as int)),
            decreases hs@.len() - k,
        {
            assert(sv(hs@).take(k + 1).drop_last() =~= sv(hs@).take(k as int));
            let ghost before = t@;
            push_lit(&mut t, "- ");
            push_all(&mut t, &to_chars(hs[k].as_str()));
            push_lit(&mut t, "\n");
            assert(t@ =~= before + "- "@ + sv(hs@)[k as int] + "\n"@);
            k = k + 1;
        }
        assert(sv(hs@).take(hs@.len() as int) =~= sv(hs@));
    }
    push_lit(&mut t, "\n");
    assert(t@ =~= headings_preview_text(nodes@));
    t
}

fn summary_exec(nodes: &[Node], total: usize, tags: usize, unresolved: usize) -> (r: Vec<char>)
    requires
        total == all_leaves(nodes@),
    ensures
        r@ == summary_block(nodes@, tags as nat, unresolved as nat),
{
    let mut t = to_chars("## Summary\n");
    push_lit(&mut t, "\n");
    push_lit(&mut t, "- Notes: ");
    push_num(&mut t, nodes.len());
    push_lit(&mut t, "\n");
    push_lit(&mut t, "- Fragments: ");
    push_num(&mut t, total);
    push_lit(&mut t, "\n");
    push_lit(&mut t, "- Tags: ");
    push_num(&mut t, tags);
    push_lit(&mut t, "\n");
    push_lit(&mut t, "- Unresolved links: ");
    push_num(&mut t, unresolved);
    push_lit(&mut t, "\n");
    push_lit(&mut t, "\n");
    assert(t@ =~= summary_block(nodes@, tags as nat, unresolved as nat));
    t
}

fn unresolved_exec(unresolved: usize) -> (r: Vec<char>)
    ensures
        r@ == unresolved_block(unresolved as nat),
{
    let mut t: Vec<char> = Vec::new();
    if unresolved > 0 {
        push_lit(&mut t, "## Unresolved links\n\n未解決の wikilink が ");
        push_num(&mut t, unresolved);
        push_lit(&mut t, " 件あります。詳細は [_unresolved.md](_unresolved.md)。\n");
        push_lit(&mut t, "\n");
    } else {
        push_lit(&mut t, "");
    }
    assert(t@ =~= unresolved_block(unresolved as nat));
    t
}

/// The body of the root `index.md`: the site's counts of notes, fragment
/// pages, tags and unresolved links; the sections and a search map; a
/// preview of the source directories (by name, at most `PREVIEW_LIMIT`) and
/// of the first h1/h2 headings; and, when some links are unresolved, a
/// pointer to them.
pub fn render_index(project_title: &str, nodes: &[Node], unresolved: &[UnresolvedLink], tag_index: &TagIndex) -> (r: String)
    requires
        all_leaves(nodes@) <= usize::MAX,
    ensures
        exists|names: Seq<Seq<char>>| texts_strict(names) && names.to_set() == source_dirs(nodes@).to_set()
            && r@ == #[trigger] index_text(project_title@, nodes@, tag_index.entries@.len() as nat, unresolved@.len() as nat, names),
{
    let (leaves, tops) = node_facts(nodes);
    let total = total_leaves(nodes, &leaves);
    let names = sorted_unique(&dir_names(nodes, &tops));
    let mut t = to_chars("# ");
    push_all(&mut t, &to_chars(project_title));
    push_lit(&mut t, "\n");
    push_lit(&mut t, "\n");
    push_all(&mut t, &summary_exec(nodes, total, tag_index.entries.len(), unresolved.len()));
    push_lit(&mut t, "## Sections\n\n- [Agent Guide](agent/index.md)\n- [Notes](fragments/_index.md)\n- [Tags](tags/index.md)\n- [Headings](headings/index.md)\n- [Links](links/index.md)\n\n");
    push_lit(&mut t, "## Search Map\n\n| Need | Start here |\n|---|---|\n| Agent workflow and reading rules | [Agent Guide](agent/index.md) |\n| Page inventory, source paths, and ranges | [Page Catalog](agent/pages/index.md) |\n| Terms from titles, headings, tags, files, and links | [Term Index](agent/terms/index.md) |\n| Browse note hierarchy | [Notes](fragments/_index.md) |\n| Find h1/h2 headings | [Headings](headings/index.md) |\n| Inspect forward links and backlinks | [Links](links/index.md) |\n| Browse tags | [Tags](tags/index.md) |\n| Check unresolved wikilinks | [_unresolved.md](_unresolved.md) |\n\n");
    push_lit(&mut t, "## Contents Preview\n");
    push_lit(&mut t, "\n");
    push_all(&mut t, &notes_preview_exec(nodes, &leaves, &tops, &names));
    push_all(&mut t, &headings_preview_exec(nodes));
    push_all(&mut t, &unresolved_exec(unresolved.len()));
    let r = from_chars(&t);
    assert(r@ =~= index_text(project_title@, nodes@, tag_index.entries@.len() as nat, unresolved@.len() as nat, sv(names@)));
    r
}

} // verus!
