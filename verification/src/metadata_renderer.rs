//! The `md_wiki` metadata block every generated page starts with.
use vstd::prelude::*;
use crate::large_markdown::{ByteRange, LineRange, SplitReason};
use crate::link::resolver::opt_str;
use crate::num::{decimal, decimal_chars};
use crate::strs::{from_chars, push_all, sv, to_chars};

verus! {

/// The metadata of one generated page.
#[derive(Debug, Clone)]
pub struct Metadata {
    pub page_kind: String,
    pub output_path: String,
    pub title: String,
    pub source: Option<String>,
    pub section_path: Vec<String>,
    pub heading_level: Option<u8>,
    pub split_reason: Option<SplitReason>,
    pub char_count: usize,
    pub byte_ranges: Vec<ByteRange>,
    pub line_ranges: Vec<LineRange>,
    pub parent: Option<String>,
    pub prev: Option<String>,
    pub next: Option<String>,
    pub children: Vec<String>,
    pub tags: Vec<String>,
    pub outgoing_links: Vec<String>,
    pub backlinks_count: usize,
}

/// Escape `\` and `"` with a backslash.
pub open spec fn yaml_escape(s: Seq<char>) -> Seq<char>
    decreases s.len(),
{
    if s.len() == 0 {
        seq![]
    } else {
        (if s[0] == '\\' {
            seq!['\\', '\\']
        } else if s[0] == '"' {
            seq!['\\', '"']
        } else {
            seq![s[0]]
        }) + yaml_escape(s.drop_first())
    }
}

/// A YAML double-quoted scalar.
pub open spec fn yaml_scalar_spec(s: Seq<char>) -> Seq<char> {
    seq!['"'] + yaml_escape(s) + seq!['"']
}

pub open spec fn split_reason_name_spec(r: SplitReason) -> Seq<char> {
    match r {
        SplitReason::Heading => "heading"@,
        SplitReason::Paragraph => "paragraph"@,
        SplitReason::List => "list"@,
        SplitReason::Table => "table"@,
        SplitReason::CodeFence => "code_fence"@,
        SplitReason::LineWindow => "line_window"@,
        SplitReason::ByteWindow => "byte_window"@,
    }
}

/// `    - "item"` lines.
pub open spec fn item_lines(items: Seq<Seq<char>>) -> Seq<char>
    decreases items.len(),
{
    if items.len() == 0 {
        seq![]
    } else {
        "    - "@ + yaml_scalar_spec(items[0]) + "\n"@ + item_lines(items.drop_first())
    }
}

/// `    - [start, end]` lines.
pub open spec fn range_lines(rs: Seq<(u64, u64)>) -> Seq<char>
    decreases rs.len(),
{
    if rs.len() == 0 {
        seq![]
    } else {
        "    - ["@ + decimal(rs[0].0 as nat) + ", "@ + decimal(rs[0].1 as nat) + "]\n"@ + range_lines(rs.drop_first())
    }
}

pub open spec fn byte_pairs(rs: Seq<ByteRange>) -> Seq<(u64, u64)> {
    rs.map_values(|r: ByteRange| (r.start, r.end))
}

pub open spec fn line_pairs(rs: Seq<LineRange>) -> Seq<(u64, u64)> {
    rs.map_values(|r: LineRange| (r.start, r.end))
}

/// `  key: "value"`, or `  key:` when there is none.
pub open spec fn optional_path_line(key: Seq<char>, v: Option<Seq<char>>) -> Seq<char> {
    match v {
        Some(p) => "  "@ + key + ": "@ + yaml_scalar_spec(p) + "\n"@,
        None => "  "@ + key + ":\n"@,
    }
}

/// A titled list, left out when empty.
pub open spec fn optional_list(head: Seq<char>, items: Seq<Seq<char>>) -> Seq<char> {
    if items.len() == 0 { seq![] } else { head + item_lines(items) }
}

/// The content of a metadata block.
pub struct MetaV {
    pub page_kind: Seq<char>,
    pub output_path: Seq<char>,
    pub title: Seq<char>,
    pub source: Option<Seq<char>>,
    pub section_path: Seq<Seq<char>>,
    pub heading_level: Option<u8>,
    pub split_reason: Option<SplitReason>,
    pub char_count: usize,
    pub byte_ranges: Seq<ByteRange>,
    pub line_ranges: Seq<LineRange>,
    pub parent: Option<Seq<char>>,
    pub prev: Option<Seq<char>>,
    pub next: Option<Seq<char>>,
    pub children: Seq<Seq<char>>,
    pub tags: Seq<Seq<char>>,
    pub outgoing_links: Seq<Seq<char>>,
    pub backlinks_count: usize,
}

impl View for Metadata {
    type V = MetaV;

    open spec fn view(&self) -> MetaV {
        MetaV {
            page_kind: self.page_kind@,
            output_path: self.output_path@,
            title: self.title@,
            source: opt_str(self.source),
            section_path: sv(self.section_path@),
            heading_level: self.heading_level,
            split_reason: self.split_reason,
            char_count: self.char_count,
            byte_ranges: self.byte_ranges@,
            line_ranges: self.line_ranges@,
            parent: opt_str(self.parent),
            prev: opt_str(self.prev),
            next: opt_str(self.next),
            children: sv(self.children@),
            tags: sv(self.tags@),
            outgoing_links: sv(self.outgoing_links@),
            backlinks_count: self.backlinks_count,
        }
    }
}

/// The whole block, field by field.
pub open spec fn frontmatter_text(m: MetaV) -> Seq<char> {
    "---\nmd_wiki:\n"@
        + "  schema_version: 1\n"@
        + "  page_kind: "@ + m.page_kind + "\n"@
        + "  output_path: "@ + yaml_scalar_spec(m.output_path) + "\n"@
        + "  title: "@ + yaml_scalar_spec(m.title) + "\n"@
        + match m.source { Some(s) => "  source: "@ + yaml_scalar_spec(s) + "\n"@, None => Seq::<char>::empty() }
        + "  section_path:\n"@ + item_lines(m.section_path)
        + match m.heading_level { Some(l) => "  heading_level: "@ + decimal(l as nat) + "\n"@, None => Seq::<char>::empty() }
        + match m.split_reason { Some(r) => "  split_reason: "@ + split_reason_name_spec(r) + "\n"@, None => Seq::<char>::empty() }
        + "  char_count: "@ + decimal(m.char_count as nat) + "\n"@
        + (if m.byte_ranges.len() == 0 { Seq::<char>::empty() } else { "  byte_ranges:\n"@ + range_lines(byte_pairs(m.byte_ranges)) })
        + (if m.line_ranges.len() == 0 { Seq::<char>::empty() } else { "  line_ranges:\n"@ + range_lines(line_pairs(m.line_ranges)) })
        + optional_path_line("parent"@, m.parent)
        + optional_path_line("prev"@, m.prev)
        + optional_path_line("next"@, m.next)
        + "  children:\n"@ + item_lines(m.children)
        + optional_list("  tags:\n"@, m.tags)
        + optional_list("  outgoing_links:\n"@, m.outgoing_links)
        + "  backlinks_count: "@ + decimal(m.backlinks_count as nat) + "\n"@
        + "---\n"@
}

/// The block of a metadata value.
pub open spec fn render_frontmatter_spec(m: Metadata) -> Seq<char> {
    frontmatter_text(m@)
}

fn lit(s: &str) -> (r: Vec<char>)
    ensures
        r@ == s@,
{
    to_chars(s)
}

fn push_str(out: &mut Vec<char>, s: &str)
    ensures
        final(out)@ == old(out)@ + s@,
{
    push_all(out, &lit(s));
}

fn push_escaped(out: &mut Vec<char>, s: &str)
    ensures
        final(out)@ == old(out)@ + yaml_escape(s@),
{
    let v = to_chars(s);
    let ghost o0 = out@;
    let mut i: usize = 0;
    assert(v@.skip(0) =~= v@);
    while i < v.len()
        invariant
            i <= v@.len(),
            v@ == s@,
            out@ + yaml_escape(v@.skip(i as int)) == o0 + yaml_escape(v@),
        decreases v@.len() - i,
    {
        let ghost rest = v@.skip(i as int);
        assert(rest[0] == v@[i as int]);
        assert(rest.drop_first() =~= v@.skip(i + 1));
        let ghost ob = out@;
        let c = v[i];
        if c == '\\' {
            out.push('\\');
            out.push('\\');
        } else if c == '"' {
            out.push('\\');
            out.push('"');
        } else {
            out.push(c);
        }
        assert(out@ + yaml_escape(v@.skip(i + 1)) =~= ob + yaml_escape(rest));
        i = i + 1;
    }
    assert(yaml_escape(v@.skip(i as int)) == Seq::<char>::empty());
    assert(out@ + Seq::<char>::empty() =~= out@);
}

/// A YAML double-quoted scalar (`\` and `"` escaped).
pub fn yaml_scalar(value: &str) -> (r: String)
    ensures
        r@ == yaml_scalar_spec(value@),
{
    let mut out: Vec<char> = Vec::new();
    out.push('"');
    push_escaped(&mut out, value);
    out.push('"');
    assert(out@ =~= yaml_scalar_spec(value@));
    from_chars(&out)
}

/// The name of a split reason in the metadata.
pub fn split_reason_name(reason: SplitReason) -> (r: &'static str)
    ensures
        r@ == split_reason_name_spec(reason),
{
    match reason {
        SplitReason::Heading => "heading",
        SplitReason::Paragraph => "paragraph",
        SplitReason::List => "list",
        SplitReason::Table => "table",
        SplitReason::CodeFence => "code_fence",
        SplitReason::LineWindow => "line_window",
        SplitReason::ByteWindow => "byte_window",
    }
}

fn push_scalar(out: &mut Vec<char>, s: &str)
    ensures
        final(out)@ == old(out)@ + yaml_scalar_spec(s@),
{
    let y = yaml_scalar(s);
    push_all(out, &to_chars(y.as_str()));
}

fn push_items(out: &mut Vec<char>, items: &Vec<String>)
    ensures
        final(out)@ == old(out)@ + item_lines(sv(items@)),
{
    let ghost o0 = out@;
    let ghost it = sv(items@);
    let mut i: usize = 0;
    assert(it.skip(0) =~= it);
    while i < items.len()
        invariant
            i <= items@.len(),
            it == sv(items@),
            out@ + item_lines(it.skip(i as int)) == o0 + item_lines(it),
        decreases items@.len() - i,
    {
        let ghost rest = it.skip(i as int);
        assert(rest[0] == items@[i as int]@);
        assert(rest.drop_first() =~= it.skip(i + 1));
        let ghost ob = out@;
        push_str(out, "    - ");
        push_scalar(out, items[i].as_str());
        push_str(out, "\n");
        assert(out@ + item_lines(it.skip(i + 1)) =~= ob + item_lines(rest));
        i = i + 1;
    }
    assert(item_lines(it.skip(i as int)) == Seq::<char>::empty());
    assert(out@ + Seq::<char>::empty() =~= out@);
}

fn decimal_u64(n: u64) -> (r: Vec<char>)
    ensures
        r@ == decimal(n as nat),
    decreases n,
{
    if n < 10 {
        let mut r: Vec<char> = Vec::new();
        let b: u8 = (n + 48) as u8;
        r.push(b as char);
        r
    } else {
        let mut r = decimal_u64(n / 10);
        let b: u8 = (n % 10 + 48) as u8;
        r.push(b as char);
        r
    }
}

fn push_ranges(out: &mut Vec<char>, rs: &Vec<(u64, u64)>)
    ensures
        final(out)@ == old(out)@ + range_lines(rs@),
{
    let ghost o0 = out@;
    let mut i: usize = 0;
    assert(rs@.skip(0) =~= rs@);
    while i < rs.len()
        invariant
            i <= rs@.len(),
            out@ + range_lines(rs@.skip(i as int)) == o0 + range_lines(rs@),
        decreases rs@.len() - i,
    {
        let ghost rest = rs@.skip(i as int);
        assert(rest[0] == rs@[i as int]);
        assert(rest.drop_first() =~= rs@.skip(i + 1));
        let ghost ob = out@;
        push_str(out, "    - [");
        push_all(out, &decimal_u64(rs[i].0));
        push_str(out, ", ");
        push_all(out, &decimal_u64(rs[i].1));
        push_str(out, "]\n");
        assert(out@ + range_lines(rs@.skip(i + 1)) =~= ob + range_lines(rest));
        i = i + 1;
    }
    assert(range_lines(rs@.skip(i as int)) == Seq::<char>::empty());
    assert(out@ + Seq::<char>::empty() =~= out@);
}

fn byte_pairs_exec(rs: &Vec<ByteRange>) -> (r: Vec<(u64, u64)>)
    ensures
        r@ == byte_pairs(rs@),
{
    let mut out: Vec<(u64, u64)> = Vec::new();
    let mut i: usize = 0;
    while i < rs.len()
        invariant
            i <= rs@.len(),
            out@ == byte_pairs(rs@.take(i as int)),
        decreases rs@.len() - i,
    {
        out.push((rs[i].start, rs[i].end));
        assert(byte_pairs(rs@.take(i + 1)) =~= byte_pairs(rs@.take(i as int)).push((rs@[i as int].start, rs@[i as int].end)));
        i = i + 1;
    }
    assert(rs@.take(i as int) =~= rs@);
    out
}

fn line_pairs_exec(rs: &Vec<LineRange>) -> (r: Vec<(u64, u64)>)
    ensures
        r@ == line_pairs(rs@),
{
    let mut out: Vec<(u64, u64)> = Vec::new();
    let mut i: usize = 0;
    while i < rs.len()
        invariant
            i <= rs@.len(),
            out@ == line_pairs(rs@.take(i as int)),
        decreases rs@.len() - i,
    {
        out.push((rs[i].start, rs[i].end));
        assert(line_pairs(rs@.take(i + 1)) =~= line_pairs(rs@.take(i as int)).push((rs@[i as int].start, rs@[i as int].end)));
        i = i + 1;
    }
    assert(rs@.take(i as int) =~= rs@);
    out
}

fn push_optional_path(out: &mut Vec<char>, key: &str, v: &Option<String>)
    ensures
        final(out)@ == old(out)@ + optional_path_line(key@, opt_str(*v)),
{
    let ghost o0 = out@;
    push_str(out, "  ");
    push_str(out, key);
    match v {
        Some(p) => {
            push_str(out, ": ");
            push_scalar(out, p.as_str());
            push_str(out, "\n");
        },
        None => {
            push_str(out, ":\n");
        },
    }
    assert(out@ =~= o0 + optional_path_line(key@, opt_str(*v)));
}

fn push_optional_list(out: &mut Vec<char>, head: &str, items: &Vec<String>)
    ensures
        final(out)@ == old(out)@ + optional_list(head@, sv(items@)),
{
    let ghost o0 = out@;
    if items.len() > 0 {
        push_str(out, head);
        push_items(out, items);
        assert(out@ =~= o0 + optional_list(head@, sv(items@)));
    } else {
        assert(out@ =~= o0 + optional_list(head@, sv(items@)));
    }
}

/// The `md_wiki` metadata block (YAML frontmatter) at the head of a page.
#[verifier::rlimit(60)]
pub fn render_frontmatter(meta: &Metadata) -> (r: String)
    ensures
        r@ == render_frontmatter_spec(*meta),
{
    let mut out: Vec<char> = Vec::new();
    push_str(&mut out, "---\nmd_wiki:\n");
    push_str(&mut out, "  schema_version: 1\n");
    push_str(&mut out, "  page_kind: ");
    push_str(&mut out, meta.page_kind.as_str());
    push_str(&mut out, "\n");
    push_str(&mut out, "  output_path: ");
    push_scalar(&mut out, meta.output_path.as_str());
    push_str(&mut out, "\n");
    push_str(&mut out, "  title: ");
    push_scalar(&mut out, meta.title.as_str());
    push_str(&mut out, "\n");
    let ghost a = out@;
    match &meta.source {
        Some(s) => {
            push_str(&mut out, "  source: ");
            push_scalar(&mut out, s.as_str());
            push_str(&mut out, "\n");
        },
        None => {},
    }
    let ghost b = out@;
    push_str(&mut out, "  section_path:\n");
    push_items(&mut out, &meta.section_path);
    let ghost c = out@;
    match meta.heading_level {
        Some(l) => {
            push_str(&mut out, "  heading_level: ");
            push_all(&mut out, &decimal_chars(l as usize));
            push_str(&mut out, "\n");
        },
        None => {},
    }
    let ghost d = out@;
    match meta.split_reason {
        Some(r) => {
            push_str(&mut out, "  split_reason: ");
            push_str(&mut out, split_reason_name(r));
            push_str(&mut out, "\n");
        },
        None => {},
    }
    let ghost e = out@;
    push_str(&mut out, "  char_count: ");
    push_all(&mut out, &decimal_chars(meta.char_count));
    push_str(&mut out, "\n");
    let ghost f = out@;
    if meta.byte_ranges.len() > 0 {
        push_str(&mut out, "  byte_ranges:\n");
        push_ranges(&mut out, &byte_pairs_exec(&meta.byte_ranges));
    }
    let ghost g = out@;
    if meta.line_ranges.len() > 0 {
        push_str(&mut out, "  line_ranges:\n");
        push_ranges(&mut out, &line_pairs_exec(&meta.line_ranges));
    }
    let ghost h = out@;
    push_optional_path(&mut out, "parent", &meta.parent);
    push_optional_path(&mut out, "prev", &meta.prev);
    push_optional_path(&mut out, "next", &meta.next);
    push_str(&mut out, "  children:\n");
    push_items(&mut out, &meta.children);
    push_optional_list(&mut out, "  tags:\n", &meta.tags);
    push_optional_list(&mut out, "  outgoing_links:\n", &meta.outgoing_links);
    push_str(&mut out, "  backlinks_count: ");
    push_all(&mut out, &decimal_chars(meta.backlinks_count));
    push_str(&mut out, "\n");
    push_str(&mut out, "---\n");
    proof {
        let m = *meta;
        assert(b =~= a + match m.source { Some(s) => "  source: "@ + yaml_scalar_spec(s@) + "\n"@, None => Seq::<char>::empty() });
        assert(d =~= c + match m.heading_level { Some(l) => "  heading_level: "@ + decimal(l as nat) + "\n"@, None => Seq::<char>::empty() });
        assert(e =~= d + match m.split_reason { Some(r) => "  split_reason: "@ + split_reason_name_spec(r) + "\n"@, None => Seq::<char>::empty() });
        assert(g =~= f + (if m.byte_ranges@.len() == 0 { Seq::<char>::empty() } else { "  byte_ranges:\n"@ + range_lines(byte_pairs(m.byte_ranges@)) }));
        assert(h =~= g + (if m.line_ranges@.len() == 0 { Seq::<char>::empty() } else { "  line_ranges:\n"@ + range_lines(line_pairs(m.line_ranges@)) }));
        assert(out@ =~= render_frontmatter_spec(m));
    }
    from_chars(&out)
}

} // verus!
