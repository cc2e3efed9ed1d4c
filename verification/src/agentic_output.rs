//! The pages written for agents beside the wiki: the entry and leaf pages of
//! a large Markdown input, the metadata block every generated page carries,
//! the agent guide, and the paging of indexes too long for one page.
use vstd::prelude::*;
use vstd::utf8::{decode_utf8, valid_utf8};
use crate::large_markdown::{ByteRange, PageKind, PagePlan, PlanV};
use crate::link::resolver::opt_str;
use crate::metadata_renderer::{frontmatter_text, render_frontmatter, MetaV, Metadata};
use crate::num::{decimal, decimal_chars};
use crate::page_registry::page_kind_name;
use crate::paths::{file_name, file_name_exec};
use crate::strs::{ends_with, from_chars, push_all, split_on, sv, to_chars};

verus! {

broadcast use vstd::seq_lib::group_seq_properties;

/// The name of a page kind in metadata.
pub open spec fn kind_name(k: PageKind) -> Seq<char> {
    match k {
        PageKind::Entry => "entry"@,
        PageKind::Shell => "shell"@,
        PageKind::Leaf => "leaf"@,
        PageKind::PagedIndex => "paged_index"@,
    }
}

/// The metadata of a planned page with the given title, for a body of
/// `chars` characters.
pub open spec fn plan_meta(p: PlanV, title: Seq<char>, chars: nat) -> MetaV {
    MetaV {
        page_kind: kind_name(p.page_kind),
        output_path: p.output_path,
        title: title,
        source: p.source_path,
        section_path: p.section_path,
        heading_level: None,
        split_reason: Some(p.split_reason),
        char_count: chars as usize,
        byte_ranges: p.byte_ranges,
        line_ranges: p.line_ranges,
        parent: p.parent,
        prev: p.prev,
        next: p.next,
        children: seq![],
        tags: seq![],
        outgoing_links: seq![],
        backlinks_count: 0,
    }
}

/// A planned page's text: its metadata block, then its body.
pub open spec fn with_plan_metadata_text(p: PlanV, title: Seq<char>, body: Seq<char>) -> Seq<char> {
    frontmatter_text(plan_meta(p, title, body.len())) + body
}

fn copy_string(s: &String) -> (r: String)
    ensures
        r@ == s@,
{
    from_chars(&to_chars(s.as_str()))
}

fn copy_opt(o: &Option<String>) -> (r: Option<String>)
    ensures
        opt_str(r) == opt_str(*o),
{
    match o {
        Some(s) => Some(copy_string(s)),
        None => None,
    }
}

fn copy_strings(v: &Vec<String>) -> (r: Vec<String>)
    ensures
        sv(r@) == sv(v@),
{
    let mut out: Vec<String> = Vec::new();
    let mut i: usize = 0;
    while i < v.len()
        invariant
            i <= v@.len(),
            sv(out@) == sv(v@.take(i as int)),
        decreases v@.len() - i,
    {
        let ghost before = sv(out@);
        out.push(copy_string(&v[i]));
        assert(sv(out@) =~= before.push(v@[i as int]@));
        assert(sv(v@.take(i + 1)) =~= sv(v@.take(i as int)).push(v@[i as int]@));
        i = i + 1;
    }
    assert(v@.take(v@.len() as int) =~= v@);
    out
}

/// Put a planned page's metadata block in front of its body.
fn with_plan_metadata(plan: &PagePlan, title: String, body: Vec<char>) -> (r: String)
    ensures
        r@ == with_plan_metadata_text(plan@, title@, body@),
{
    let meta = Metadata {
        page_kind: from_chars(&to_chars(page_kind_name(plan.page_kind))),
        output_path: copy_string(&plan.output_path),
        title: title,
        source: copy_opt(&plan.source_path),
        section_path: copy_strings(&plan.section_path),
        heading_level: None,
        split_reason: Some(plan.split_reason),
        char_count: body.len(),
        byte_ranges: vstd::slice::slice_to_vec(plan.byte_ranges.as_slice()),
        line_ranges: vstd::slice::slice_to_vec(plan.line_ranges.as_slice()),
        parent: copy_opt(&plan.parent),
        prev: copy_opt(&plan.prev),
        next: copy_opt(&plan.next),
        children: Vec::new(),
        tags: Vec::new(),
        outgoing_links: Vec::new(),
        backlinks_count: 0,
    };
    assert(meta@.children =~= Seq::<Seq<char>>::empty());
    assert(meta@.tags =~= Seq::<Seq<char>>::empty());
    assert(meta@.outgoing_links =~= Seq::<Seq<char>>::empty());
    assert(meta@ == plan_meta(plan@, title@, body@.len()));
    let head = render_frontmatter(&meta);
    let mut t = to_chars(head.as_str());
    push_all(&mut t, &body);
    from_chars(&t)
}

// ---------------------------------------------------------------------------
// Large Markdown pages
// ---------------------------------------------------------------------------

/// The last segment of a path that is neither empty nor `.`, if any.
pub open spec fn last_named_segment(segs: Seq<Seq<char>>) -> Option<Seq<char>>
    decreases segs.len(),
{
    if segs.len() == 0 {
        None
    } else if segs.last().len() == 0 || segs.last() == "."@ {
        last_named_segment(segs.drop_last())
    } else {
        Some(segs.last())
    }
}

/// The path names a file: it does not end in `..` and has a last part.
pub open spec fn has_file_name(p: Seq<char>) -> bool {
    last_named_segment(split_on(p, '/')) matches Some(x) && x != ".."@
}

/// The title of the entry page of a large input: its first section, else
/// `Large Markdown`.
pub open spec fn entry_title(p: PlanV) -> Seq<char> {
    if p.section_path.len() > 0 { p.section_path[0] } else { "Large Markdown"@ }
}

pub open spec fn leaf_link_lines(leaves: Seq<PlanV>) -> Seq<char>
    decreases leaves.len(),
{
    if leaves.len() == 0 {
        seq![]
    } else {
        leaf_link_lines(leaves.drop_last()) + "- ["@ + leaves.last().page_id + "]("@ + file_name(leaves.last().output_path) + ")\n"@
    }
}

/// The body of the entry page of a large input: its title, how many leaf
/// pages it has, and a link to each.
pub open spec fn entry_body(entry: PlanV, leaves: Seq<PlanV>) -> Seq<char> {
    "# "@ + entry_title(entry) + "\n\n"@ + "- Leaf pages: `"@ + decimal(leaves.len()) + "`\n\n"@ + "## Fragments\n\n"@
        + leaf_link_lines(leaves)
}

/// The entry page of a large input, with its metadata.
pub fn large_entry_page(entry: &PagePlan, leaves: &[PagePlan]) -> (r: String)
    requires
        forall|i: int| 0 <= i < leaves@.len() ==> has_file_name(#[trigger] leaves@[i].output_path@),
    ensures
        r@ == with_plan_metadata_text(entry@, entry_title(entry@), entry_body(entry@, leaves@.map_values(|p: PagePlan| p@))),
{
    let ghost lv = leaves@.map_values(|p: PagePlan| p@);
    let title = if entry.section_path.len() > 0 {
        copy_string(&entry.section_path[0])
    } else {
        String::from_str("Large Markdown")
    };
    proof {
        if entry.section_path@.len() > 0 {
            assert(entry@.section_path[0] == entry.section_path@[0]@);
        }
    }
    let mut body = to_chars("# ");
    push_all(&mut body, &to_chars(title.as_str()));
    push_all(&mut body, &to_chars("\n\n"));
    push_all(&mut body, &to_chars("- Leaf pages: `"));
    push_all(&mut body, &decimal_chars(leaves.len()));
    push_all(&mut body, &to_chars("`\n\n"));
    push_all(&mut body, &to_chars("## Fragments\n\n"));
    let ghost head = body@;
    let mut i: usize = 0;
    assert(lv.take(0) =~= Seq::<PlanV>::empty());
    while i < leaves.len()
        invariant
            i <= leaves@.len(),
            lv == leaves@.map_values(|p: PagePlan| p@),
            body@ == head + leaf_link_lines(lv.take(i as int)),
        decreases leaves@.len() - i,
    {
        let l = &leaves[i];
        push_all(&mut body, &to_chars("- ["));
        push_all(&mut body, &to_chars(l.page_id.as_str()));
        push_all(&mut body, &to_chars("]("));
        push_all(&mut body, &file_name_exec(l.output_path.as_str()));
        push_all(&mut body, &to_chars(")\n"));
        assert(lv.take(i + 1).drop_last() =~= lv.take(i as int));
        assert(lv.take(i + 1).last() == l@);
        i = i + 1;
    }
    assert(lv.take(leaves@.len() as int) =~= lv);
    assert(body@ =~= entry_body(entry@, lv));
    with_plan_metadata(entry, title, body)
}

/// The navigation line of a planned page: its parent, previous and next
/// pages, where it has them.
pub open spec fn nav_text(p: PlanV) -> Seq<char> {
    (match p.parent { Some(x) => "> Parent: [Parent]("@ + x + ")"@, None => seq![] })
        + (match p.prev { Some(x) => " · Prev: [Prev]("@ + x + ")"@, None => seq![] })
        + (match p.next { Some(x) => " · Next: [Next]("@ + x + ")"@, None => seq![] })
        + "\n"@
}

/// The bytes of each range of the plan, read from `source`.
pub open spec fn range_bytes(source: Seq<u8>, rs: Seq<ByteRange>, k: int) -> Seq<Seq<u8>>
    decreases k,
{
    if k <= 0 {
        seq![]
    } else {
        range_bytes(source, rs, k - 1).push(source.subrange(rs[k - 1].start as int, rs[k - 1].end as int))
    }
}

/// The ranges' text, one range after another (each range decoded alone).
pub open spec fn ranges_text(parts: Seq<Seq<u8>>) -> Seq<char>
    decreases parts.len(),
{
    if parts.len() == 0 {
        seq![]
    } else {
        ranges_text(parts.drop_last()) + decode_utf8(parts.last())
    }
}

pub open spec fn all_valid(parts: Seq<Seq<u8>>) -> bool {
    forall|i: int| 0 <= i < parts.len() ==> valid_utf8(#[trigger] parts[i])
}

/// The body of a leaf page: its navigation line and a rule, then the text
/// of its byte ranges, ending in a newline.
pub open spec fn leaf_body(p: PlanV, content: Seq<char>) -> Seq<char> {
    let b = nav_text(p) + "---\n\n"@ + content;
    if ends_with(b, "\n"@) { b } else { b.push('\n') }
}

/// The title of a leaf page: its last section, else its page id.
pub open spec fn leaf_title(p: PlanV) -> Seq<char> {
    if p.section_path.len() > 0 { p.section_path.last() } else { p.page_id }
}

/// A leaf page of a large input, with its metadata, its text read from the
/// input's bytes `source`; `None` where a range's bytes are not UTF-8.
pub fn large_leaf_page(plan: &PagePlan, source: &[u8]) -> (r: Option<String>)
    requires
        forall|i: int| 0 <= i < plan.byte_ranges@.len() ==>
            (#[trigger] plan.byte_ranges@[i]).start <= plan.byte_ranges@[i].end <= source@.len(),
    ensures
        ({
            let parts = range_bytes(source@, plan.byte_ranges@, plan.byte_ranges@.len() as int);
            if all_valid(parts) {
                r matches Some(t) && t@ == with_plan_metadata_text(plan@, leaf_title(plan@), leaf_body(plan@, ranges_text(parts)))
            } else {
                r is None
            }
        }),
{
    let ghost rs = plan.byte_ranges@;
    let total = source.len();
    assert(source@.len() == total);
    let mut content: Vec<char> = Vec::new();
    let mut i: usize = 0;
    assert(ranges_text(range_bytes(source@, rs, 0)) =~= Seq::<char>::empty());
    while i < plan.byte_ranges.len()
        invariant
            i <= rs.len(),
            rs == plan.byte_ranges@,
            source@.len() == total,
            forall|j: int| 0 <= j < rs.len() ==> (#[trigger] rs[j]).start <= rs[j].end <= source@.len(),
            all_valid(range_bytes(source@, rs, i as int)),
            content@ == ranges_text(range_bytes(source@, rs, i as int)),
        decreases rs.len() - i,
    {
        let range = plan.byte_ranges[i];
        assert(rs[i as int] == range);
        let part = vstd::slice::slice_subrange(source, range.start as usize, range.end as usize);
        let ghost before = range_bytes(source@, rs, i as int);
        assert(range_bytes(source@, rs, i + 1) == before.push(part@));
        match crate::strs::str_from_utf8(part) {
            Err(_) => {
                proof {
                    let all = range_bytes(source@, rs, rs.len() as int);
                    lemma_range_bytes_prefix(source@, rs, i + 1, rs.len() as int);
                    lemma_range_bytes_len(source@, rs, i as int);
                    assert(range_bytes(source@, rs, i + 1)[i as int] == part@);
                    assert(all[i as int] == part@);
                }
                return None;
            },
            Ok(t) => {
                push_all(&mut content, &to_chars(t.as_str()));
                assert(ranges_text(before.push(part@)).len() >= 0);
                assert(before.push(part@).drop_last() =~= before);
            },
        }
        i = i + 1;
    }
    let mut body = nav_line_exec(plan);
    push_all(&mut body, &to_chars("---\n\n"));
    push_all(&mut body, &content);
    let ghost b0 = body@;
    let ghost parts = range_bytes(source@, rs, rs.len() as int);
    assert(b0 == nav_text(plan@) + "---\n\n"@ + ranges_text(parts));
    let ends_nl = body.len() > 0 && body[body.len() - 1] == '\n';
    proof {
        reveal_strlit("\n");
        assert("\n"@ =~= seq!['\n']);
        if b0.len() > 0 {
            assert(b0.subrange(b0.len() - 1, b0.len() as int) =~= seq![b0.last()]);
        }
        assert(ends_nl == ends_with(b0, "\n"@));
    }
    if !ends_nl {
        body.push('\n');
    }
    assert(body@ == leaf_body(plan@, ranges_text(parts)));
    let title = if plan.section_path.len() > 0 {
        copy_string(&plan.section_path[plan.section_path.len() - 1])
    } else {
        copy_string(&plan.page_id)
    };
    proof {
        if plan.section_path@.len() > 0 {
            assert(plan@.section_path.last() == plan.section_path@.last()@);
        }
    }
    let r = with_plan_metadata(plan, title, body);
    Some(r)
}

proof fn lemma_range_bytes_prefix(source: Seq<u8>, rs: Seq<ByteRange>, k: int, m: int)
    requires
        0 <= k <= m,
    ensures
        range_bytes(source, rs, m).len() == m,
        forall|j: int| 0 <= j < k ==> range_bytes(source, rs, m)[j] == #[trigger] range_bytes(source, rs, k)[j],
    decreases m - k,
{
    lemma_range_bytes_len(source, rs, m);
    lemma_range_bytes_len(source, rs, k);
    if k < m {
        lemma_range_bytes_prefix(source, rs, k + 1, m);
        lemma_range_bytes_len(source, rs, k + 1);
        assert forall|j: int| 0 <= j < k implies range_bytes(source, rs, m)[j] == #[trigger] range_bytes(source, rs, k)[j] by {
            assert(range_bytes(source, rs, k + 1)[j] == range_bytes(source, rs, k)[j]);
        }
    }
}

proof fn lemma_range_bytes_len(source: Seq<u8>, rs: Seq<ByteRange>, k: int)
    ensures
        range_bytes(source, rs, k).len() == if k <= 0 { 0 } else { k },
    decreases k,
{
    if k > 0 {
        lemma_range_bytes_len(source, rs, k - 1);
    }
}

fn nav_part(label: &str, x: &Option<String>) -> (r: Vec<char>)
    ensures
        r@ == match opt_str(*x) { Some(v) => label@ + v + ")"@, None => Seq::<char>::empty() },
{
    match x {
        Some(v) => {
            let mut out = to_chars(label);
            push_all(&mut out, &to_chars(v.as_str()));
            push_all(&mut out, &to_chars(")"));
            out
        },
        None => Vec::new(),
    }
}

fn nav_line_exec(plan: &PagePlan) -> (r: Vec<char>)
    ensures
        r@ == nav_text(plan@),
{
    let mut out = nav_part("> Parent: [Parent](", &plan.parent);
    push_all(&mut out, &nav_part(" · Prev: [Prev](", &plan.prev));
    push_all(&mut out, &nav_part(" · Next: [Next](", &plan.next));
    push_all(&mut out, &to_chars("\n"));
    assert(out@ =~= nav_text(plan@));
    out
}

// ---------------------------------------------------------------------------
// The agent guide
// ---------------------------------------------------------------------------

/// The indexes the agent guide points to, relative to `agent/`.
pub open spec fn guide_children() -> Seq<Seq<char>> {
    seq!["../fragments/_index.md"@, "../headings/index.md"@, "../links/index.md"@, "../tags/index.md"@, "../_unresolved.md"@, "pages/index.md"@, "terms/index.md"@]
}

pub open spec fn index_link_lines(cs: Seq<Seq<char>>) -> Seq<char>
    decreases cs.len(),
{
    if cs.len() == 0 {
        seq![]
    } else {
        index_link_lines(cs.drop_last()) + "- ["@ + cs.last() + "]("@ + cs.last() + ")\n"@
    }
}

/// The body of the agent guide: the page budget and reading rules, a link
/// to each index, which index answers which kind of query, and the steps of
/// a search.
pub open spec fn guide_body() -> Seq<char> {
    "# Agent Guide\n\n"@ + "- Page budget: 40,000 characters hard limit per Markdown file\n"@ + "- Do not read every leaf page in sequence; route through indexes first\n"@ + "- Keep source, line range, and generated page path as evidence\n\n"@ + "## Indexes\n\n"@
        + index_link_lines(guide_children())
        + "\n## Query Routing\n\n"@ + "| Query type | Primary route | Secondary route |\n"@ + "|---|---|---|\n"@ + "| definition | `agent/terms/`, `headings/` | `fragments/_index.md` |\n"@ + "| specification | `headings/`, text search | Prev / Next leaf pages |\n"@ + "| relationship | `links/`, Backlinks | related leaf pages |\n"@ + "| tag | `tags/` | `agent/terms/` |\n"@ + "| unresolved | `_unresolved.md` | page catalog |\n"@ + "| huge range | `agent/pages/` source and line range | Prev / Next |\n"@ + "| ambiguous | `agent/terms/` and text search | catalog comparison |\n"@ + "\n"@ + "## Search Steps\n\n"@ + "1. Read `index.md`.\n"@ + "2. Read `agent/index.md`.\n"@ + "3. Choose headings, tags, links, terms, or catalog according to the query.\n"@ + "4. Read candidate entry or shell pages, then selected leaf pages.\n"@ + "5. Expand only through Prev, Next, Children, Backlinks, or outgoing links as needed.\n"@
}

/// The metadata of the agent guide, for a body of `chars` characters.
pub open spec fn guide_meta(chars: nat) -> MetaV {
    MetaV {
        page_kind: "agent_guide"@,
        output_path: "agent/index.md"@,
        title: "Agent Guide"@,
        source: None,
        section_path: seq!["agent"@],
        heading_level: None,
        split_reason: None,
        char_count: chars as usize,
        byte_ranges: seq![],
        line_ranges: seq![],
        parent: Some("../index.md"@),
        prev: None,
        next: None,
        children: guide_children(),
        tags: seq![],
        outgoing_links: seq![],
        backlinks_count: 0,
    }
}

/// The agent guide, `agent/index.md`, with its metadata.
pub fn agent_guide() -> (r: String)
    ensures
        r@ == frontmatter_text(guide_meta(guide_body().len())) + guide_body(),
{
    let mut kids: Vec<String> = Vec::new();
    kids.push(String::from_str("../fragments/_index.md"));
    kids.push(String::from_str("../headings/index.md"));
    kids.push(String::from_str("../links/index.md"));
    kids.push(String::from_str("../tags/index.md"));
    kids.push(String::from_str("../_unresolved.md"));
    kids.push(String::from_str("pages/index.md"));
    kids.push(String::from_str("terms/index.md"));
    assert(sv(kids@) =~= guide_children());
    let mut t: Vec<char> = Vec::new();
    push_all(&mut t, &to_chars("# Agent Guide\n\n"));
    push_all(&mut t, &to_chars("- Page budget: 40,000 characters hard limit per Markdown file\n"));
    push_all(&mut t, &to_chars("- Do not read every leaf page in sequence; route through indexes first\n"));
    push_all(&mut t, &to_chars("- Keep source, line range, and generated page path as evidence\n\n"));
    push_all(&mut t, &to_chars("## Indexes\n\n"));
    let ghost h = t@;
    let mut i: usize = 0;
    assert(sv(kids@).take(0) =~= Seq::<Seq<char>>::empty());
    while i < kids.len()
        invariant
            i <= kids@.len(),
            sv(kids@) == guide_children(),
            t@ == h + index_link_lines(sv(kids@).take(i as int)),
        decreases kids@.len() - i,
    {
        push_all(&mut t, &to_chars("- ["));
        push_all(&mut t, &to_chars(kids[i].as_str()));
        push_all(&mut t, &to_chars("]("));
        push_all(&mut t, &to_chars(kids[i].as_str()));
        push_all(&mut t, &to_chars(")\n"));
        assert(sv(kids@).take(i + 1).drop_last() =~= sv(kids@).take(i as int));
        assert(sv(kids@).take(i + 1).last() == kids@[i as int]@);
        i = i + 1;
    }
    assert(sv(kids@).take(kids@.len() as int) =~= sv(kids@));
    push_all(&mut t, &to_chars("\n## Query Routing\n\n"));
    push_all(&mut t, &to_chars("| Query type | Primary route | Secondary route |\n"));
    push_all(&mut t, &to_chars("|---|---|---|\n"));
    push_all(&mut t, &to_chars("| definition | `agent/terms/`, `headings/` | `fragments/_index.md` |\n"));
    push_all(&mut t, &to_chars("| specification | `headings/`, text search | Prev / Next leaf pages |\n"));
    push_all(&mut t, &to_chars("| relationship | `links/`, Backlinks | related leaf pages |\n"));
    push_all(&mut t, &to_chars("| tag | `tags/` | `agent/terms/` |\n"));
    push_all(&mut t, &to_chars("| unresolved | `_unresolved.md` | page catalog |\n"));
    push_all(&mut t, &to_chars("| huge range | `agent/pages/` source and line range | Prev / Next |\n"));
    push_all(&mut t, &to_chars("| ambiguous | `agent/terms/` and text search | catalog comparison |\n"));
    push_all(&mut t, &to_chars("\n"));
    push_all(&mut t, &to_chars("## Search Steps\n\n"));
    push_all(&mut t, &to_chars("1. Read `index.md`.\n"));
    push_all(&mut t, &to_chars("2. Read `agent/index.md`.\n"));
    push_all(&mut t, &to_chars("3. Choose headings, tags, links, terms, or catalog according to the query.\n"));
    push_all(&mut t, &to_chars("4. Read candidate entry or shell pages, then selected leaf pages.\n"));
    push_all(&mut t, &to_chars("5. Expand only through Prev, Next, Children, Backlinks, or outgoing links as needed.\n"));
    assert(t@ =~= guide_body());
    let mut section = Vec::new();
    section.push(String::from_str("agent"));
    let meta = Metadata {
        page_kind: String::from_str("agent_guide"),
        output_path: String::from_str("agent/index.md"),
        title: String::from_str("Agent Guide"),
        source: None,
        section_path: section,
        heading_level: None,
        split_reason: None,
        char_count: t.len(),
        byte_ranges: Vec::new(),
        line_ranges: Vec::new(),
        parent: Some(String::from_str("../index.md")),
        prev: None,
        next: None,
        children: kids,
        tags: Vec::new(),
        outgoing_links: Vec::new(),
        backlinks_count: 0,
    };
    assert(meta@.section_path =~= seq!["agent"@]);
    assert(meta@.byte_ranges =~= Seq::<ByteRange>::empty());
    assert(meta@.line_ranges =~= Seq::<crate::large_markdown::LineRange>::empty());
    assert(meta@.tags =~= Seq::<Seq<char>>::empty());
    assert(meta@.outgoing_links =~= Seq::<Seq<char>>::empty());
    assert(meta@ == guide_meta(guide_body().len()));
    let head = render_frontmatter(&meta);
    let mut out = to_chars(head.as_str());
    push_all(&mut out, &t);
    from_chars(&out)
}

// ---------------------------------------------------------------------------
// Paging a long index
// ---------------------------------------------------------------------------

/// Indexes longer than this many characters are split into pages.
pub const PAGE_CHAR_LIMIT: usize = 40_000;

/// How many characters one page of a split index holds, at most (a single
/// longer line still gets a page of its own).
pub const INDEX_PAGE_CHARS: usize = 30_000;

/// The pages of an index's lines: lines are added to the current page, each
/// with its newline, and a page is closed before a line that would take it
/// over `INDEX_PAGE_CHARS` characters. Returns the closed pages, the open
/// page and its length.
pub open spec fn page_fold(ls: Seq<Seq<char>>, k: int) -> (Seq<Seq<char>>, Seq<char>)
    decreases k,
{
    if k <= 0 {
        (seq![], seq![])
    } else {
        let (pages, cur) = page_fold(ls, k - 1);
        let line = ls[k - 1];
        if cur.len() > 0 && cur.len() + line.len() + 1 > INDEX_PAGE_CHARS {
            (pages.push(cur), line + "\n"@)
        } else {
            (pages, cur + line + "\n"@)
        }
    }
}

/// The pages of an index body.
pub open spec fn index_pages(body: Seq<char>) -> Seq<Seq<char>> {
    let ls = crate::strs::lines(body);
    let (pages, cur) = page_fold(ls, ls.len() as int);
    if cur.len() > 0 { pages.push(cur) } else { pages }
}

/// What a page of an index holds, by its link labels, or by its headings
/// where it has no links: how many, the first and the last.
pub open spec fn page_items(page: Seq<char>) -> Seq<Seq<char>> {
    let labels = crate::term_index::link_labels(page);
    if labels.len() > 0 {
        labels
    } else {
        crate::notes::headings::headings_of(crate::agent_catalog::strip_frontmatter(page)).map_values(|h: (u8, Seq<char>)| h.1)
    }
}

pub open spec fn first_or_empty(xs: Seq<Seq<char>>) -> Seq<char> {
    if xs.len() > 0 { xs[0] } else { seq![] }
}

pub open spec fn last_or_empty(xs: Seq<Seq<char>>) -> Seq<char> {
    if xs.len() > 0 { xs.last() } else { seq![] }
}

/// The file name of the `n`-th page of a split index.
pub open spec fn index_page_name(n: nat) -> Seq<char> {
    "page-"@ + crate::num::zero_pad(decimal(n), 3) + ".md"@
}

/// The line of the list of pages for the `k`-th page.
pub open spec fn manifest_line_text(k: nat, page: Seq<char>) -> Seq<char> {
    let items = page_items(page);
    "- [Page "@ + decimal(k) + "]("@ + index_page_name(k) + ") — "@
        + decimal(items.len()) + " headings, `"@ + first_or_empty(items) + "` ... `"@ + last_or_empty(items) + "`\n"@
}

pub open spec fn index_manifest_lines(pages: Seq<Seq<char>>, k: int) -> Seq<char>
    decreases k,
{
    if k <= 0 {
        seq![]
    } else {
        index_manifest_lines(pages, k - 1) + manifest_line_text(k as nat, pages[k - 1])
    }
}

/// The page that takes the place of a split index: how many pages it has,
/// and per page its link, how many items it holds, its first and last.
pub open spec fn index_manifest(title: Seq<char>, pages: Seq<Seq<char>>) -> Seq<char> {
    "# "@ + title + "\n\n- Paged index pages: `"@ + decimal(pages.len()) + "`\n"@ + index_manifest_lines(pages, pages.len() as int)
}

pub open spec fn index_page_files(dir: Seq<char>, title: Seq<char>, pages: Seq<Seq<char>>, k: int) -> Seq<(Seq<char>, Seq<char>)>
    decreases k,
{
    if k <= 0 {
        seq![]
    } else {
        index_page_files(dir, title, pages, k - 1).push((
            crate::paths::join2(dir, index_page_name(k as nat)),
            "# "@ + title + " "@ + decimal(k as nat) + "\n\n"@ + pages[k - 1],
        ))
    }
}

/// The files that page an index at `rel` with the given title and text
/// (its metadata block, if any, is left out first): none where the rest is
/// at most `PAGE_CHAR_LIMIT` characters; else `rel` itself, now the list of
/// pages, followed by each page `page-NNN.md` beside it, titled with its
/// number.
pub open spec fn page_index_files(rel: Seq<char>, title: Seq<char>, body: Seq<char>) -> Seq<(Seq<char>, Seq<char>)> {
    let b = crate::agent_catalog::strip_frontmatter(body);
    if b.len() <= PAGE_CHAR_LIMIT {
        seq![]
    } else {
        let pages = index_pages(b);
        seq![(rel, index_manifest(title, pages))] + index_page_files(crate::paths::parent_dir(rel), title, pages, pages.len() as int)
    }
}
fn page_items_exec(page: &str) -> (r: Vec<String>)
    ensures
        sv(r@) == page_items(page@),
{
    let labels = crate::term_index::link_labels_exec(page);
    if labels.len() > 0 {
        labels
    } else {
        crate::term_index::heading_texts(page)
    }
}

fn manifest_line(k: usize, page: &Vec<char>) -> (r: Vec<char>)
    requires
        k >= 1,
    ensures
        r@ == manifest_line_text(k as nat, page@),
{
    let text = from_chars(page);
    let items = page_items_exec(text.as_str());
    let mut t = to_chars("- [Page ");
    push_all(&mut t, &decimal_chars(k));
    push_all(&mut t, &to_chars("]("));
    push_all(&mut t, &index_page_name_exec(k));
    push_all(&mut t, &to_chars(") — "));
    push_all(&mut t, &decimal_chars(items.len()));
    push_all(&mut t, &to_chars(" headings, `"));
    if items.len() > 0 {
        push_all(&mut t, &to_chars(items[0].as_str()));
    }
    push_all(&mut t, &to_chars("` ... `"));
    if items.len() > 0 {
        push_all(&mut t, &to_chars(items[items.len() - 1].as_str()));
    }
    push_all(&mut t, &to_chars("`\n"));
    proof {
        let iv = sv(items@);
        if iv.len() > 0 {
            assert(iv[0] == items@[0]@);
            assert(iv.last() == items@[items@.len() - 1]@);
        }
    }
    assert(t@ =~= manifest_line_text(k as nat, page@));
    t
}

fn manifest_text(title: &str, pages: &Vec<Vec<char>>) -> (m: Vec<char>)
    ensures
        m@ == index_manifest(title@, crate::strs::vv(pages)),
{
    let ghost pv = crate::strs::vv(pages);
    let mut m = to_chars("# ");
    push_all(&mut m, &to_chars(title));
    push_all(&mut m, &to_chars("\n\n- Paged index pages: `"));
    push_all(&mut m, &decimal_chars(pages.len()));
    push_all(&mut m, &to_chars("`\n"));
    let ghost mhead = m@;
    let mut k: usize = 0;
    while k < pages.len()
        invariant
            k <= pages@.len(),
            pv == crate::strs::vv(pages),
            m@ == mhead + index_manifest_lines(pv, k as int),
        decreases pages@.len() - k,
    {
        assert(pv[k as int] == pages@[k as int]@);
        let line = manifest_line(k + 1, &pages[k]);
        let ghost before = m@;
        push_all(&mut m, &line);
        assert(index_manifest_lines(pv, k + 1) == index_manifest_lines(pv, k as int) + manifest_line_text((k + 1) as nat, pv[k as int]));
        assert(m@ =~= mhead + index_manifest_lines(pv, k + 1));
        k = k + 1;
    }
    m
}

fn index_page_name_exec(k: usize) -> (r: Vec<char>)
    ensures
        r@ == index_page_name(k as nat),
{
    let mut t = to_chars("page-");
    push_all(&mut t, &crate::num::zero_pad_chars(k, 3));
    push_all(&mut t, &to_chars(".md"));
    t
}

/// The files that page a long index: `rel` itself (with the given title),
/// now a list of its pages, and each page beside it; nothing where the
/// index, without its metadata block, is at most `PAGE_CHAR_LIMIT`
/// characters long. Removing earlier pages is left to whoever writes these.
pub fn page_index(rel: &str, title: &str, body: &str) -> (r: Vec<(String, String)>)
    ensures
        crate::output_plan::pairs_view(r@) == page_index_files(rel@, title@, body@),
{
    let stripped = crate::agent_catalog::strip_frontmatter_text(body);
    let bc = to_chars(stripped.as_str());
    if bc.len() <= PAGE_CHAR_LIMIT {
        let v: Vec<(String, String)> = Vec::new();
        assert(crate::output_plan::pairs_view(v@) =~= Seq::<(Seq<char>, Seq<char>)>::empty());
        return v;
    }
    let ls = crate::strs::lines_chars(&bc);
    let ghost lv = crate::strs::vv(&ls);
    let mut pages: Vec<Vec<char>> = Vec::new();
    let mut cur: Vec<char> = Vec::new();
    let mut i: usize = 0;
    assert(crate::strs::vv(&pages) =~= Seq::<Seq<char>>::empty());
    while i < ls.len()
        invariant
            i <= ls@.len(),
            lv == crate::strs::vv(&ls),
            (crate::strs::vv(&pages), cur@) == page_fold(lv, i as int),
        decreases ls@.len() - i,
    {
        let line = &ls[i];
        assert(lv[i as int] == line@);
        if cur.len() > 0 && (cur.len() as u128) + (line.len() as u128) + 1 > INDEX_PAGE_CHARS as u128 {
            let ghost before = crate::strs::vv(&pages);
            let done = cur;
            pages.push(done);
            assert(crate::strs::vv(&pages) =~= before.push(done@));
            cur = Vec::new();
            push_all(&mut cur, line);
            cur.push('\n');
        } else {
            push_all(&mut cur, line);
            cur.push('\n');
        }
        proof {
            reveal_strlit("\n");
            assert("\n"@ =~= seq!['\n']);
        }
        i = i + 1;
    }
    if cur.len() > 0 {
        let ghost before = crate::strs::vv(&pages);
        let done = cur;
        pages.push(done);
        assert(crate::strs::vv(&pages) =~= before.push(done@));
    }
    let ghost pv = crate::strs::vv(&pages);
    assert(pv == index_pages(stripped@));
    let m = manifest_text(title, &pages);
    let mut out: Vec<(String, String)> = Vec::new();
    out.push((from_chars(&to_chars(rel)), from_chars(&m)));
    let dir = crate::paths::parent_dir_exec(rel);
    let dir_chars = to_chars(dir.as_str());
    let ghost first = seq![(rel@, index_manifest(title@, pv))];
    assert(crate::output_plan::pairs_view(out@) =~= first + index_page_files(dir@, title@, pv, 0));
    let mut j: usize = 0;
    while j < pages.len()
        invariant
            j <= pages@.len(),
            pv == crate::strs::vv(&pages),
            dir_chars@ == dir@,
            dir@ == crate::paths::parent_dir(rel@),
            crate::output_plan::pairs_view(out@) == first + index_page_files(dir@, title@, pv, j as int),
        decreases pages@.len() - j,
    {
        let path = crate::paths::join2_exec(&dir_chars, &index_page_name_exec(j + 1));
        let mut text = to_chars("# ");
        push_all(&mut text, &to_chars(title));
        push_all(&mut text, &to_chars(" "));
        push_all(&mut text, &decimal_chars(j + 1));
        push_all(&mut text, &to_chars("\n\n"));
        push_all(&mut text, &pages[j]);
        assert(pv[j as int] == pages@[j as int]@);
        let ghost before = crate::output_plan::pairs_view(out@);
        let entry = (from_chars(&path), from_chars(&text));
        out.push(entry);
        assert(crate::output_plan::pairs_view(out@) =~= before.push((entry.0@, entry.1@)));
        j = j + 1;
    }
    out
}

// ---------------------------------------------------------------------------
// Metadata for pages written without it
// ---------------------------------------------------------------------------

/// A page that already starts with its `md_wiki` metadata block.
pub open spec fn has_metadata(body: Seq<char>) -> bool {
    crate::strs::starts_with(body, "---\nmd_wiki:\n"@)
}

/// A page under `agent/`, whose pages are written with their metadata.
pub open spec fn under_agent(rel: Seq<char>) -> bool {
    let cs = crate::paths::components(rel);
    cs.len() > 0 && cs[0] == "agent"@
}

/// The source file a page of `fragments/` stands for: its directories below
/// `fragments/`, as a `.md` path.
pub open spec fn source_for(rel: Seq<char>) -> Option<Seq<char>> {
    let cs = crate::paths::components(rel);
    if cs.len() < 3 || cs[0] != "fragments"@ {
        None
    } else {
        Some(crate::strs::join(cs.subrange(1, cs.len() - 1), "/"@) + ".md"@)
    }
}

/// The tag a tag page stands for: its path below `tags/` without the
/// extension (none for `tags/index.md` or a page outside `tags/`).
pub open spec fn tags_for(rel: Seq<char>) -> Seq<Seq<char>> {
    let cs = crate::paths::components(rel);
    if cs.len() == 0 || cs[0] != "tags"@ || cs == seq!["tags"@, "index.md"@] {
        seq![]
    } else if cs.len() == 1 {
        seq![seq![]]
    } else {
        let rest = cs.skip(1);
        seq![crate::strs::join(rest.drop_last().push(crate::paths::stem(rest.last())), "/"@)]
    }
}

/// The line range of a page: all its lines, where it has any.
pub open spec fn line_range_for(body: Seq<char>) -> Seq<crate::large_markdown::LineRange> {
    let n = crate::strs::lines(body).len();
    if n == 0 { seq![] } else { seq![crate::large_markdown::LineRange { start: 1, end: n as u64 }] }
}

/// Non-overlapping occurrences of `p` in `s` from `i` on, leftmost first.
pub open spec fn count_from(s: Seq<char>, p: Seq<char>, i: int) -> nat
    decreases s.len() - i,
{
    if i < 0 || p.len() == 0 || i + p.len() > s.len() {
        0
    } else if s.subrange(i, i + p.len()) == p {
        1 + count_from(s, p, i + p.len())
    } else {
        count_from(s, p, i + 1)
    }
}

/// The first line starting with `> Parent: `, if any.
pub open spec fn first_nav_line(ls: Seq<Seq<char>>) -> Option<Seq<char>>
    decreases ls.len(),
{
    if ls.len() == 0 {
        None
    } else if crate::strs::starts_with(ls[0], "> Parent: "@) {
        Some(ls[0])
    } else {
        first_nav_line(ls.drop_first())
    }
}

pub open spec fn nav_pattern() -> Seq<char> {
    "(Parent|Prev|Next): \\[[^\\]\\n]+\\]\\(([^)]+)\\)"@
}

pub open spec fn target_pattern() -> Seq<char> {
    "\\[[^\\]\\n]+\\]\\(([^)\\s]+)\\)"@
}

pub open spec fn group(g: Seq<Option<Seq<char>>>, i: int) -> Seq<char> {
    if i < g.len() && g[i] is Some { g[i]->0 } else { seq![] }
}

/// Parent, previous and next page named by the navigation matches (a later
/// match of the same kind wins).
pub open spec fn nav_fold(caps: Seq<Seq<Option<Seq<char>>>>) -> (Option<Seq<char>>, Option<Seq<char>>, Option<Seq<char>>)
    decreases caps.len(),
{
    if caps.len() == 0 {
        (None, None, None)
    } else {
        let (pa, pr, ne) = nav_fold(caps.drop_last());
        let g = caps.last();
        let label = group(g, 1);
        let target = group(g, 2);
        if label == "Parent"@ {
            (Some(target), pr, ne)
        } else if label == "Prev"@ {
            (pa, Some(target), ne)
        } else if label == "Next"@ {
            (pa, pr, Some(target))
        } else {
            (pa, pr, ne)
        }
    }
}

/// The parent, previous and next page named on a page's navigation line.
pub open spec fn nav_targets(body: Seq<char>) -> (Option<Seq<char>>, Option<Seq<char>>, Option<Seq<char>>) {
    match first_nav_line(crate::strs::lines(body)) {
        None => (None, None, None),
        Some(line) => match crate::pattern::regex_all_captures(nav_pattern(), line) {
            Some(caps) => nav_fold(caps),
            None => (None, None, None),
        },
    }
}

/// The targets of a page's Markdown links, in order.
pub open spec fn link_targets(body: Seq<char>) -> Seq<Seq<char>> {
    match crate::pattern::regex_all_captures(target_pattern(), body) {
        Some(caps) => caps.map_values(|g: Seq<Option<Seq<char>>>| group(g, 1)),
        None => seq![],
    }
}

/// Path segments with `.` and empty ones left out and `..` taking back
/// the segment before it.
pub open spec fn resolve_segments(segs: Seq<Seq<char>>) -> Seq<Seq<char>>
    decreases segs.len(),
{
    if segs.len() == 0 {
        seq![]
    } else {
        let done = resolve_segments(segs.drop_last());
        let x = segs.last();
        if x.len() == 0 || x == "."@ {
            done
        } else if x == ".."@ {
            if done.len() > 0 { done.drop_last() } else { done }
        } else {
            done.push(x)
        }
    }
}

/// A link target as a path from the output root, seen from a page in `base`.
pub open spec fn resolve_link(base: Seq<char>, target: Seq<char>) -> Seq<char> {
    let joined = if target.len() > 0 && target[0] == '/' {
        target
    } else if base.len() == 0 {
        target
    } else {
        base + "/"@ + target
    };
    crate::strs::join(resolve_segments(split_on(joined, '/')), "/"@)
}

/// A path that exists under the output root: the root itself, or one of
/// `existing`.
pub open spec fn exists_in(t: Seq<char>, existing: Seq<Seq<char>>) -> bool {
    t.len() == 0 || existing.contains(t)
}

/// The link targets of a page that exist, resolved from its directory.
pub open spec fn existing_targets(base: Seq<char>, ts: Seq<Seq<char>>, existing: Seq<Seq<char>>) -> Seq<Seq<char>>
    decreases ts.len(),
{
    if ts.len() == 0 {
        seq![]
    } else {
        let done = existing_targets(base, ts.drop_last(), existing);
        let t = resolve_link(base, ts.last());
        if exists_in(t, existing) { done.push(t) } else { done }
    }
}

/// The metadata given to a page `rel` that was written without it.
pub open spec fn inferred_meta(rel: Seq<char>, body: Seq<char>, existing: Seq<Seq<char>>) -> MetaV {
    let kind = crate::agent_catalog::infer_page_kind(rel);
    let hs = crate::notes::headings::headings_of(crate::agent_catalog::strip_frontmatter(body));
    let nav = nav_targets(body);
    let base = crate::paths::parent_dir(rel);
    let links = existing_targets(base, link_targets(body), existing);
    MetaV {
        page_kind: kind,
        output_path: rel,
        title: if hs.len() > 0 { hs[0].1 } else { rel },
        source: source_for(rel),
        section_path: crate::paths::components(rel),
        heading_level: if hs.len() > 0 { Some(hs[0].0) } else { None },
        split_reason: None,
        char_count: body.len() as usize,
        byte_ranges: seq![],
        line_ranges: line_range_for(body),
        parent: nav.0,
        prev: nav.1,
        next: nav.2,
        children: if crate::budget::find_from(body, "## Fragments"@, 0) is Some { links } else { seq![] },
        tags: tags_for(rel),
        outgoing_links: if kind == "paged_index"@ { seq![] } else { links },
        backlinks_count: count_from(body, "## Backlinks"@, 0) as usize,
    }
}

fn under_agent_exec(rel: &str) -> (b: bool)
    ensures
        b == under_agent(rel@),
{
    let cs = crate::paths::components_exec(&to_chars(rel));
    cs.len() > 0 && crate::strs::eq_str(&cs[0], "agent")
}

fn source_for_exec(rel: &str) -> (r: Option<String>)
    ensures
        opt_str(r) == source_for(rel@),
{
    let cs = crate::paths::components_exec(&to_chars(rel));
    let ghost cv = crate::strs::vv(&cs);
    if cs.len() < 3 || !crate::strs::eq_str(&cs[0], "fragments") {
        return None;
    }
    let mut mid: Vec<Vec<char>> = Vec::new();
    let mut i: usize = 1;
    while i < cs.len() - 1
        invariant
            1 <= i <= cs@.len() - 1,
            cs@.len() >= 3,
            cv == crate::strs::vv(&cs),
            crate::strs::vv(&mid) == cv.subrange(1, i as int),
        decreases cs@.len() - i,
    {
        let ghost before = crate::strs::vv(&mid);
        mid.push(crate::strs::slice_copy(&cs[i], 0, cs[i].len()));
        assert(cs@[i as int]@.subrange(0, cs@[i as int]@.len() as int) =~= cs@[i as int]@);
        assert(crate::strs::vv(&mid) =~= before.push(cv[i as int]));
        assert(cv.subrange(1, i + 1) =~= cv.subrange(1, i as int).push(cv[i as int]));
        i = i + 1;
    }
    let mut t = crate::strs::join_chars(&mid, &to_chars("/"));
    push_all(&mut t, &to_chars(".md"));
    Some(from_chars(&t))
}

fn tags_for_exec(rel: &str) -> (r: Vec<String>)
    ensures
        sv(r@) == tags_for(rel@),
{
    let cs = crate::paths::components_exec(&to_chars(rel));
    let ghost cv = crate::strs::vv(&cs);
    let mut out: Vec<String> = Vec::new();
    let is_index = cs.len() == 2 && crate::strs::eq_str(&cs[0], "tags") && crate::strs::eq_str(&cs[1], "index.md");
    proof {
        if cs@.len() == 2 {
            if cv[0] == "tags"@ && cv[1] == "index.md"@ {
                assert(cv =~= seq!["tags"@, "index.md"@]);
            }
        }
    }
    if cs.len() == 0 || !crate::strs::eq_str(&cs[0], "tags") || is_index {
        assert(sv(out@) =~= Seq::<Seq<char>>::empty());
        return out;
    }
    if cs.len() == 1 {
        out.push(String::new());
        assert(sv(out@) =~= seq![Seq::<char>::empty()]);
        return out;
    }
    let mut parts: Vec<Vec<char>> = Vec::new();
    let mut i: usize = 1;
    while i < cs.len() - 1
        invariant
            1 <= i <= cs@.len() - 1,
            cs@.len() >= 2,
            cv == crate::strs::vv(&cs),
            crate::strs::vv(&parts) == cv.skip(1).take(i - 1),
        decreases cs@.len() - i,
    {
        let ghost before = crate::strs::vv(&parts);
        parts.push(crate::strs::slice_copy(&cs[i], 0, cs[i].len()));
        assert(cs@[i as int]@.subrange(0, cs@[i as int]@.len() as int) =~= cs@[i as int]@);
        assert(crate::strs::vv(&parts) =~= before.push(cv[i as int]));
        assert(cv.skip(1).take(i as int) =~= cv.skip(1).take(i - 1).push(cv[i as int]));
        i = i + 1;
    }
    let last = &cs[cs.len() - 1];
    let ghost before = crate::strs::vv(&parts);
    parts.push(crate::paths::stem_exec(last));
    let ghost rest = cv.skip(1);
    assert(rest.drop_last() =~= cv.skip(1).take(cs@.len() - 2));
    assert(rest.last() == last@);
    assert(crate::strs::vv(&parts) =~= rest.drop_last().push(crate::paths::stem(rest.last())));
    let joined = crate::strs::join_chars(&parts, &to_chars("/"));
    out.push(from_chars(&joined));
    assert(sv(out@) =~= tags_for(rel@));
    out
}

fn count_from_exec(v: &[char], p: &[char]) -> (n: usize)
    requires
        p@.len() > 0,
    ensures
        n == count_from(v@, p@, 0),
{
    let mut i: usize = 0;
    let mut n: usize = 0;
    while p.len() <= v.len() - i
        invariant
            p@.len() > 0,
            i <= v@.len(),
            n <= i,
            n + count_from(v@, p@, i as int) == count_from(v@, p@, 0),
        decreases v@.len() - i,
    {
        let hit = crate::strs::chars_eq(&crate::strs::slice_copy(v, i, i + p.len()), p);
        if hit {
            n = n + 1;
            i = i + p.len();
        } else {
            i = i + 1;
        }
    }
    n
}

fn resolve_link_exec(base: &[char], target: &[char]) -> (r: Vec<char>)
    ensures
        r@ == resolve_link(base@, target@),
{
    let joined = if target.len() > 0 && target[0] == '/' {
        crate::strs::slice_copy(target, 0, target.len())
    } else if base.len() == 0 {
        crate::strs::slice_copy(target, 0, target.len())
    } else {
        let mut j = crate::strs::slice_copy(base, 0, base.len());
        j.push('/');
        push_all(&mut j, target);
        j
    };
    proof {
        reveal_strlit("/");
        assert("/"@ =~= seq!['/']);
        assert(base@.subrange(0, base@.len() as int) =~= base@);
        assert(target@.subrange(0, target@.len() as int) =~= target@);
    }
    let ghost want = if target@.len() > 0 && target@[0] == '/' {
        target@
    } else if base@.len() == 0 {
        target@
    } else {
        base@ + "/"@ + target@
    };
    assert(joined@ =~= want);
    let segs = crate::strs::split_chars(&joined, '/');
    let ghost sg = crate::strs::vv(&segs);
    let mut out: Vec<Vec<char>> = Vec::new();
    let mut i: usize = 0;
    assert(sg.take(0) =~= Seq::<Seq<char>>::empty());
    while i < segs.len()
        invariant
            i <= segs@.len(),
            sg == crate::strs::vv(&segs),
            crate::strs::vv(&out) == resolve_segments(sg.take(i as int)),
        decreases segs@.len() - i,
    {
        let x = &segs[i];
        assert(sg.take(i + 1).drop_last() =~= sg.take(i as int));
        assert(sg.take(i + 1).last() == x@);
        proof {
            reveal_strlit(".");
            reveal_strlit("..");
        }
        if x.len() == 0 || crate::strs::eq_str(x, ".") {
        } else if crate::strs::eq_str(x, "..") {
            if out.len() > 0 {
                let ghost before = crate::strs::vv(&out);
                out.pop();
                assert(crate::strs::vv(&out) =~= before.drop_last());
            }
        } else {
            let ghost before = crate::strs::vv(&out);
            out.push(crate::strs::slice_copy(x, 0, x.len()));
            assert(x@.subrange(0, x@.len() as int) =~= x@);
            assert(crate::strs::vv(&out) =~= before.push(x@));
        }
        i = i + 1;
    }
    assert(sg.take(segs@.len() as int) =~= sg);
    let sep = to_chars("/");
    let r = crate::strs::join_chars(&out, &sep);
    assert(r@ == crate::strs::join(resolve_segments(split_on(want, '/')), "/"@));
    r
}

fn contains_text(xs: &[String], t: &[char]) -> (b: bool)
    ensures
        b == sv(xs@).contains(t@),
{
    let mut i: usize = 0;
    while i < xs.len()
        invariant
            i <= xs@.len(),
            forall|j: int| 0 <= j < i ==> sv(xs@)[j] != t@,
        decreases xs@.len() - i,
    {
        if crate::strs::chars_eq(&to_chars(xs[i].as_str()), t) {
            assert(sv(xs@)[i as int] == t@);
            return true;
        }
        i = i + 1;
    }
    false
}

fn existing_targets_exec(base: &[char], ts: &Vec<String>, existing: &[String]) -> (r: Vec<String>)
    ensures
        sv(r@) == existing_targets(base@, sv(ts@), sv(existing@)),
{
    let ghost tv = sv(ts@);
    let mut out: Vec<String> = Vec::new();
    let mut i: usize = 0;
    assert(tv.take(0) =~= Seq::<Seq<char>>::empty());
    while i < ts.len()
        invariant
            i <= ts@.len(),
            tv == sv(ts@),
            sv(out@) == existing_targets(base@, tv.take(i as int), sv(existing@)),
        decreases ts@.len() - i,
    {
        assert(tv.take(i + 1).drop_last() =~= tv.take(i as int));
        assert(tv.take(i + 1).last() == ts@[i as int]@);
        let t = resolve_link_exec(base, &to_chars(ts[i].as_str()));
        if t.len() == 0 || contains_text(existing, &t) {
            let ghost before = sv(out@);
            out.push(from_chars(&t));
            assert(sv(out@) =~= before.push(t@));
        }
        i = i + 1;
    }
    assert(tv.take(ts@.len() as int) =~= tv);
    out
}

fn link_targets_exec(body: &str) -> (r: Vec<String>)
    ensures
        sv(r@) == link_targets(body@),
{
    match crate::pattern::captures_all("\\[[^\\]\\n]+\\]\\(([^)\\s]+)\\)", body) {
        None => {
            let v: Vec<String> = Vec::new();
            assert(sv(v@) =~= Seq::<Seq<char>>::empty());
            v
        },
        Some(all) => {
            let ghost av = all@.map_values(|g: Vec<Option<String>>| crate::pattern::groups_view(g@));
            let mut out: Vec<String> = Vec::new();
            let mut i: usize = 0;
            while i < all.len()
                invariant
                    i <= all@.len(),
                    av == all@.map_values(|g: Vec<Option<String>>| crate::pattern::groups_view(g@)),
                    sv(out@) == av.take(i as int).map_values(|g: Seq<Option<Seq<char>>>| group(g, 1)),
                decreases all@.len() - i,
            {
                let g = &all[i];
                let ghost gv = crate::pattern::groups_view(g@);
                assert(av[i as int] == gv);
                let x = if g.len() > 1 {
                    match &g[1] {
                        Some(t) => from_chars(&to_chars(t.as_str())),
                        None => String::new(),
                    }
                } else {
                    String::new()
                };
                assert(x@ == group(gv, 1));
                let ghost before = sv(out@);
                out.push(x);
                assert(sv(out@) =~= before.push(x@));
                assert(av.take(i + 1).map_values(|g: Seq<Option<Seq<char>>>| group(g, 1))
                    =~= av.take(i as int).map_values(|g: Seq<Option<Seq<char>>>| group(g, 1)).push(group(gv, 1)));
                i = i + 1;
            }
            assert(av.take(all@.len() as int) =~= av);
            out
        },
    }
}

fn nav_line_of(body: &str) -> (r: Option<String>)
    ensures
        opt_str(r) == first_nav_line(crate::strs::lines(body@)),
{
    let ls = crate::strs::lines_chars(&to_chars(body));
    let ghost lv = crate::strs::vv(&ls);
    let mut k: usize = 0;
    assert(lv.skip(0) =~= lv);
    while k < ls.len() && !crate::strs::starts_with_str(&ls[k], "> Parent: ")
        invariant
            k <= ls@.len(),
            lv == crate::strs::vv(&ls),
            first_nav_line(lv) == first_nav_line(lv.skip(k as int)),
        decreases ls@.len() - k,
    {
        assert(lv.skip(k as int)[0] == ls@[k as int]@);
        assert(lv.skip(k as int).drop_first() =~= lv.skip(k + 1));
        k = k + 1;
    }
    if k == ls.len() {
        assert(lv.skip(k as int) =~= Seq::<Seq<char>>::empty());
        return None;
    }
    assert(lv.skip(k as int)[0] == ls@[k as int]@);
    Some(from_chars(&ls[k]))
}

fn group_text(g: &Vec<Option<String>>, i: usize) -> (r: String)
    ensures
        r@ == group(crate::pattern::groups_view(g@), i as int),
{
    if i < g.len() {
        match &g[i] {
            Some(t) => from_chars(&to_chars(t.as_str())),
            None => String::new(),
        }
    } else {
        String::new()
    }
}

fn nav_fold_exec(all: &Vec<Vec<Option<String>>>) -> (r: (Option<String>, Option<String>, Option<String>))
    ensures
        (opt_str(r.0), opt_str(r.1), opt_str(r.2)) == nav_fold(all@.map_values(|g: Vec<Option<String>>| crate::pattern::groups_view(g@))),
{
    let ghost av = all@.map_values(|g: Vec<Option<String>>| crate::pattern::groups_view(g@));
    let mut pa: Option<String> = None;
    let mut pr: Option<String> = None;
    let mut ne: Option<String> = None;
    let mut i: usize = 0;
    assert(av.take(0) =~= Seq::<Seq<Option<Seq<char>>>>::empty());
    while i < all.len()
        invariant
            i <= all@.len(),
            av == all@.map_values(|g: Vec<Option<String>>| crate::pattern::groups_view(g@)),
            (opt_str(pa), opt_str(pr), opt_str(ne)) == nav_fold(av.take(i as int)),
        decreases all@.len() - i,
    {
        let g = &all[i];
        let ghost gv = crate::pattern::groups_view(g@);
        assert(av[i as int] == gv);
        assert(av.take(i + 1).drop_last() =~= av.take(i as int));
        assert(av.take(i + 1).last() == gv);
        let label = to_chars(group_text(g, 1).as_str());
        let target = group_text(g, 2);
        if crate::strs::eq_str(&label, "Parent") {
            pa = Some(target);
        } else if crate::strs::eq_str(&label, "Prev") {
            pr = Some(target);
        } else if crate::strs::eq_str(&label, "Next") {
            ne = Some(target);
        }
        i = i + 1;
    }
    assert(av.take(all@.len() as int) =~= av);
    (pa, pr, ne)
}

fn nav_targets_exec(body: &str) -> (r: (Option<String>, Option<String>, Option<String>))
    ensures
        (opt_str(r.0), opt_str(r.1), opt_str(r.2)) == nav_targets(body@),
{
    match nav_line_of(body) {
        None => (None, None, None),
        Some(line) => match crate::pattern::captures_all("(Parent|Prev|Next): \\[[^\\]\\n]+\\]\\(([^)]+)\\)", line.as_str()) {
            None => (None, None, None),
            Some(all) => nav_fold_exec(&all),
        },
    }
}

/// The page `rel` (whose text is `body`) with an `md_wiki` metadata block
/// put in front of it, where it has none and is not under `agent/`: its
/// kind from its path, its first heading as title (else its path), the
/// source file it stands for, its tag, its line range, the pages its
/// navigation line names, the existing pages it links to (as children too
/// where it has a `## Fragments` list), and how many `## Backlinks`
/// sections it has. `existing` lists the paths under the output root that
/// exist (the root itself always does).
pub fn metadata_for_page(rel: &str, body: &str, existing: &[String]) -> (r: Option<String>)
    ensures
        if under_agent(rel@) || has_metadata(body@) {
            r is None
        } else {
            r matches Some(t) && t@ == frontmatter_text(inferred_meta(rel@, body@, sv(existing@))) + body@
        },
{
    let bv = to_chars(body);
    if under_agent_exec(rel) || crate::strs::starts_with_str(&bv, "---\nmd_wiki:\n") {
        return None;
    }
    let ghost m = inferred_meta(rel@, body@, sv(existing@));
    let kind = crate::agent_catalog::infer_page_kind_text(rel);
    let stripped = crate::agent_catalog::strip_frontmatter_text(body);
    let hs = crate::notes::headings::extract(stripped.as_str());
    let ghost hv = crate::notes::headings::headings_view(hs@);
    let title = if hs.len() > 0 {
        assert(hv[0] == (hs@[0].level, hs@[0].text@));
        from_chars(&to_chars(hs[0].text.as_str()))
    } else {
        from_chars(&to_chars(rel))
    };
    let level = if hs.len() > 0 { Some(hs[0].level) } else { None };
    let nav = nav_targets_exec(body);
    let base = crate::paths::parent_dir_exec(rel);
    let targets = link_targets_exec(body);
    let links = existing_targets_exec(&to_chars(base.as_str()), &targets, existing);
    proof {
        reveal_strlit("## Fragments");
        reveal_strlit("## Backlinks");
    }
    let has_fragments = crate::budget::find_from_exec(&bv, &to_chars("## Fragments"), 0).is_some();
    let children = if has_fragments { copy_strings(&links) } else { Vec::new() };
    let outgoing = if crate::strs::eq_str(&to_chars(kind.as_str()), "paged_index") { Vec::new() } else { links };
    let n_lines = crate::strs::lines_chars(&bv).len();
    let mut ranges: Vec<crate::large_markdown::LineRange> = Vec::new();
    if n_lines > 0 {
        ranges.push(crate::large_markdown::LineRange { start: 1, end: n_lines as u64 });
    }
    let backlinks = count_from_exec(&bv, &to_chars("## Backlinks"));
    let comps = crate::paths::components_exec(&bv_rel(rel));
    let mut section: Vec<String> = Vec::new();
    let mut i: usize = 0;
    while i < comps.len()
        invariant
            i <= comps@.len(),
            sv(section@) == crate::strs::vv(&comps).take(i as int),
        decreases comps@.len() - i,
    {
        let ghost before = sv(section@);
        section.push(from_chars(&comps[i]));
        assert(sv(section@) =~= before.push(comps@[i as int]@));
        assert(crate::strs::vv(&comps).take(i + 1) =~= crate::strs::vv(&comps).take(i as int).push(comps@[i as int]@));
        i = i + 1;
    }
    assert(crate::strs::vv(&comps).take(comps@.len() as int) =~= crate::strs::vv(&comps));
    let meta = Metadata {
        page_kind: kind,
        output_path: from_chars(&to_chars(rel)),
        title,
        source: source_for_exec(rel),
        section_path: section,
        heading_level: level,
        split_reason: None,
        char_count: bv.len(),
        byte_ranges: Vec::new(),
        line_ranges: ranges,
        parent: nav.0,
        prev: nav.1,
        next: nav.2,
        children,
        tags: tags_for_exec(rel),
        outgoing_links: outgoing,
        backlinks_count: backlinks,
    };
    proof {
        reveal_strlit("paged_index");
        if hs@.len() > 0 {
            assert(hv[0] == (hs@[0].level, hs@[0].text@));
        }
        assert(meta@.byte_ranges =~= Seq::<ByteRange>::empty());
        assert(meta@.line_ranges =~= line_range_for(body@));
        if !has_fragments {
            assert(meta@.children =~= Seq::<Seq<char>>::empty());
        }
        if kind@ == "paged_index"@ {
            assert(meta@.outgoing_links =~= Seq::<Seq<char>>::empty());
        }
    }
    assert(meta@ == m);
    let head = render_frontmatter(&meta);
    let mut t = to_chars(head.as_str());
    push_all(&mut t, &bv);
    Some(from_chars(&t))
}

fn bv_rel(rel: &str) -> (r: Vec<char>)
    ensures
        r@ == rel@,
{
    to_chars(rel)
}

} // verus!
