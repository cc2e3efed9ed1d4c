//! The agent's page catalog: one row per generated page, tables paginated to
//! stay small, and one page per source file listing the pages made from it.
//! Which files exist and what they hold is read outside; the pages to write
//! are computed here.
use vstd::prelude::*;
use crate::context_pack::{lemma_push_set, sorted_unique, texts_strict};
use crate::large_markdown::{ByteRange, LineRange};
use crate::metadata_renderer::{frontmatter_text, render_frontmatter, Metadata, MetaV};
use crate::num::{decimal, decimal_chars, first_free, first_free_name, numbered, zero_pad, zero_pad_chars};
use crate::order::{path_lt, path_lt_exec, lemma_path_lt_asym, lemma_path_le_trans, sort_by_key, sorted_by_key, Keyed};
use crate::paths::components;
use crate::render::text::{replace_str, replace_text};
use crate::strs::{ends_with, from_chars, push_all, slice_copy, sv, to_chars, vv};

verus! {

/// One row of the page catalog.
#[derive(Debug, Clone)]
pub struct CatalogRow {
    pub path: String,
    pub kind: String,
    pub title: String,
    pub source: String,
    pub section: String,
    pub chars: usize,
    pub parent: String,
    pub prev: String,
    pub next: String,
}

pub struct RowV {
    pub path: Seq<char>,
    pub kind: Seq<char>,
    pub title: Seq<char>,
    pub source: Seq<char>,
    pub section: Seq<char>,
    pub chars: usize,
    pub parent: Seq<char>,
    pub prev: Seq<char>,
    pub next: Seq<char>,
}

impl View for CatalogRow {
    type V = RowV;

    open spec fn view(&self) -> RowV {
        RowV {
            path: self.path@,
            kind: self.kind@,
            title: self.title@,
            source: self.source@,
            section: self.section@,
            chars: self.chars,
            parent: self.parent@,
            prev: self.prev@,
            next: self.next@,
        }
    }
}

pub open spec fn rows_view(v: Seq<CatalogRow>) -> Seq<RowV> {
    v.map_values(|r: CatalogRow| r@)
}

/// A generated file: its output-relative path and its text.
pub open spec fn files_view(v: Seq<(String, String)>) -> Seq<(Seq<char>, Seq<char>)> {
    v.map_values(|f: (String, String)| (f.0@, f.1@))
}

fn copy_row(r: &CatalogRow) -> (c: CatalogRow)
    ensures
        c@ == r@,
{
    CatalogRow {
        path: r.path.clone(),
        kind: r.kind.clone(),
        title: r.title.clone(),
        source: r.source.clone(),
        section: r.section.clone(),
        chars: r.chars,
        parent: r.parent.clone(),
        prev: r.prev.clone(),
        next: r.next.clone(),
    }
}

pub fn push_str(out: &mut Vec<char>, s: &str)
    ensures
        final(out)@ == old(out)@ + s@,
{
    push_all(out, &to_chars(s));
}

// ---------------------------------------------------------------------------
// Table rows
// ---------------------------------------------------------------------------

/// A table cell: `|` escaped, line breaks made spaces.
pub open spec fn cell(v: Seq<char>) -> Seq<char> {
    replace_text(replace_text(v, "|"@, "\\|"@), "\n"@, " "@)
}

pub fn escape_table(value: &str) -> (r: String)
    ensures
        r@ == cell(value@),
{
    replace_str(replace_str(value, "|", "\\|").as_str(), "\n", " ")
}

pub open spec fn table_header() -> Seq<char> {
    "| path | kind | title | source | section | chars | parent | prev | next |\n|---|---|---|---|---|---:|---|---|---|\n"@
}

/// The catalog line of one row, linking the page from `agent/pages/`.
pub open spec fn row_line(r: RowV) -> Seq<char> {
    "| ["@ + cell(r.path) + "](../../"@ + r.path + ") | `"@ + cell(r.kind) + "` | "@ + cell(r.title) + " | "@
        + cell(r.source) + " | "@ + cell(r.section) + " | "@ + decimal(r.chars as nat) + " | "@ + cell(r.parent)
        + " | "@ + cell(r.prev) + " | "@ + cell(r.next) + " |\n"@
}

pub fn push_cell(out: &mut Vec<char>, s: &str)
    ensures
        final(out)@ == old(out)@ + cell(s@),
{
    push_str(out, escape_table(s).as_str());
}

fn row_line_exec(r: &CatalogRow) -> (l: Vec<char>)
    ensures
        l@ == row_line(r@),
{
    let mut out: Vec<char> = Vec::new();
    push_str(&mut out, "| [");
    push_cell(&mut out, r.path.as_str());
    push_str(&mut out, "](../../");
    push_str(&mut out, r.path.as_str());
    push_str(&mut out, ") | `");
    push_cell(&mut out, r.kind.as_str());
    push_str(&mut out, "` | ");
    push_cell(&mut out, r.title.as_str());
    push_str(&mut out, " | ");
    push_cell(&mut out, r.source.as_str());
    push_str(&mut out, " | ");
    push_cell(&mut out, r.section.as_str());
    push_str(&mut out, " | ");
    push_all(&mut out, &decimal_chars(r.chars));
    push_str(&mut out, " | ");
    push_cell(&mut out, r.parent.as_str());
    push_str(&mut out, " | ");
    push_cell(&mut out, r.prev.as_str());
    push_str(&mut out, " | ");
    push_cell(&mut out, r.next.as_str());
    push_str(&mut out, " |\n");
    out
}

/// The lines of the first `k` rows.
pub open spec fn rows_text(rows: Seq<RowV>, k: int) -> Seq<char>
    decreases k,
{
    if k <= 0 {
        seq![]
    } else {
        rows_text(rows, k - 1) + row_line(rows[k - 1])
    }
}

/// The catalog table of some rows.
pub open spec fn table_text(rows: Seq<RowV>) -> Seq<char> {
    table_header() + rows_text(rows, rows.len() as int)
}

fn table_exec(rows: &Vec<CatalogRow>) -> (t: Vec<char>)
    ensures
        t@ == table_text(rows_view(rows@)),
{
    let mut out: Vec<char> = Vec::new();
    push_str(&mut out, "| path | kind | title | source | section | chars | parent | prev | next |\n|---|---|---|---|---|---:|---|---|---|\n");
    let ghost h = out@;
    let mut k: usize = 0;
    while k < rows.len()
        invariant
            k <= rows@.len(),
            out@ == h + rows_text(rows_view(rows@), k as int),
        decreases rows@.len() - k,
    {
        push_all(&mut out, &row_line_exec(&rows[k]));
        assert(out@ =~= h + rows_text(rows_view(rows@), k + 1));
        k = k + 1;
    }
    out
}

// ---------------------------------------------------------------------------
// Pagination
// ---------------------------------------------------------------------------

/// The most characters a catalog page's table may take before a new page starts.
pub open spec fn page_limit() -> nat {
    30000
}

/// Rows cut into pages: a row starts a new page when the current one is
/// not empty and the row's line would take it over the limit.
pub open spec fn paginate_fold(rows: Seq<RowV>, k: int) -> (Seq<Seq<RowV>>, Seq<RowV>, nat)
    decreases k,
{
    if k <= 0 {
        (seq![], seq![], table_header().len())
    } else {
        let (ps, cur, n) = paginate_fold(rows, k - 1);
        let l = row_line(rows[k - 1]).len();
        if cur.len() > 0 && n + l > page_limit() {
            (ps.push(cur), seq![rows[k - 1]], table_header().len() + l)
        } else {
            (ps, cur.push(rows[k - 1]), n + l)
        }
    }
}

/// The pages of the catalog.
pub open spec fn paginate(rows: Seq<RowV>) -> Seq<Seq<RowV>> {
    let (ps, cur, _) = paginate_fold(rows, rows.len() as int);
    if cur.len() > 0 { ps.push(cur) } else { ps }
}

/// All rows of some pages, in order.
pub open spec fn flatten_rows(ps: Seq<Seq<RowV>>) -> Seq<RowV>
    decreases ps.len(),
{
    if ps.len() == 0 {
        seq![]
    } else {
        flatten_rows(ps.drop_last()) + ps.last()
    }
}

proof fn lemma_paginate_fold(rows: Seq<RowV>, k: int)
    requires
        0 <= k <= rows.len(),
    ensures
        flatten_rows(paginate_fold(rows, k).0) + paginate_fold(rows, k).1 == rows.take(k),
        forall|j: int| 0 <= j < paginate_fold(rows, k).0.len() ==> #[trigger] paginate_fold(rows, k).0[j].len() > 0,
    decreases k,
{
    if k > 0 {
        lemma_paginate_fold(rows, k - 1);
        let (ps, cur, n) = paginate_fold(rows, k - 1);
        let l = row_line(rows[k - 1]).len();
        assert(rows.take(k) =~= rows.take(k - 1).push(rows[k - 1]));
        if cur.len() > 0 && n + l > page_limit() {
            assert(ps.push(cur).drop_last() =~= ps);
            assert(flatten_rows(ps.push(cur)) == flatten_rows(ps) + cur);
            assert(flatten_rows(ps.push(cur)) + seq![rows[k - 1]] =~= rows.take(k));
        } else {
            assert(flatten_rows(ps) + cur.push(rows[k - 1]) =~= rows.take(k));
        }
    }
}

/// Cutting rows into pages loses, repeats and reorders none of them, and
/// leaves no page empty.
pub proof fn lemma_paginate_keeps_rows(rows: Seq<RowV>)
    ensures
        flatten_rows(paginate(rows)) == rows,
        forall|j: int| 0 <= j < paginate(rows).len() ==> #[trigger] paginate(rows)[j].len() > 0,
{
    lemma_paginate_fold(rows, rows.len() as int);
    let (ps, cur, n) = paginate_fold(rows, rows.len() as int);
    assert(rows.take(rows.len() as int) =~= rows);
    if cur.len() > 0 {
        assert(ps.push(cur).drop_last() =~= ps);
    } else {
        assert(flatten_rows(ps) + cur =~= flatten_rows(ps));
    }
}

fn rows_seq_push(v: &mut Vec<CatalogRow>, r: CatalogRow)
    ensures
        rows_view(final(v)@) == rows_view(old(v)@).push(r@),
        final(v)@.len() == old(v)@.len() + 1,
{
    let ghost b = rows_view(v@);
    v.push(r);
    assert(rows_view(v@) =~= b.push(r@));
}

/// The pages of the catalog table.
pub fn paginate_catalog_rows(rows: &[CatalogRow]) -> (r: Vec<Vec<CatalogRow>>)
    ensures
        r@.len() == paginate(rows_view(rows@)).len(),
        forall|j: int| 0 <= j < r@.len() ==> rows_view(#[trigger] r@[j]@) == paginate(rows_view(rows@))[j],
{
    let ghost rv = rows_view(rows@);
    let mut pages: Vec<Vec<CatalogRow>> = Vec::new();
    let mut cur: Vec<CatalogRow> = Vec::new();
    let hl = to_chars("| path | kind | title | source | section | chars | parent | prev | next |\n|---|---|---|---|---|---:|---|---|---|\n").len();
    let mut n: u128 = hl as u128;
    let mut k: usize = 0;
    while k < rows.len()
        invariant
            k <= rows@.len(),
            rv == rows_view(rows@),
            hl == table_header().len(),
            cur@.len() == 0 ==> n == hl,
            n <= hl + 30000 + usize::MAX,
            pages@.len() == paginate_fold(rv, k as int).0.len(),
            forall|j: int| 0 <= j < pages@.len() ==> rows_view(#[trigger] pages@[j]@) == paginate_fold(rv, k as int).0[j],
            rows_view(cur@) == paginate_fold(rv, k as int).1,
            n as nat == paginate_fold(rv, k as int).2,
        decreases rows@.len() - k,
    {
        assert(rv[k as int] == rows@[k as int]@);
        let l = row_line_exec(&rows[k]).len();
        let ghost ps0 = paginate_fold(rv, k as int).0;
        if cur.len() > 0 && n + (l as u128) > 30000 {
            let mut fresh: Vec<CatalogRow> = Vec::new();
            std::mem::swap(&mut fresh, &mut cur);
            pages.push(fresh);
            rows_seq_push(&mut cur, copy_row(&rows[k]));
            assert(rows_view(cur@) =~= seq![rv[k as int]]);
            n = (hl as u128) + (l as u128);
            assert forall|j: int| 0 <= j < pages@.len() implies rows_view(#[trigger] pages@[j]@) == paginate_fold(rv, k + 1).0[j] by {
                if j < ps0.len() {
                }
            }
        } else {
            rows_seq_push(&mut cur, copy_row(&rows[k]));
            n = n + (l as u128);
        }
        k = k + 1;
    }
    if cur.len() > 0 {
        pages.push(cur);
    }
    pages
}

// ---------------------------------------------------------------------------
// Pages by source
// ---------------------------------------------------------------------------

/// `trim_end_matches(".md")`: every trailing `.md` removed.
pub open spec fn strip_md(s: Seq<char>) -> Seq<char>
    decreases s.len(),
{
    if s.len() >= 3 && ends_with(s, ".md"@) {
        strip_md(s.take(s.len() - 3))
    } else {
        s
    }
}

pub open spec fn is_stem_char(c: char) -> bool {
    ('a' <= c <= 'z') || ('A' <= c <= 'Z') || ('0' <= c <= '9') || c == '-'
}

/// ASCII letters, digits and `-` kept; each run of other characters made one `_`.
pub open spec fn mangle(s: Seq<char>, k: int) -> (Seq<char>, bool)
    decreases k,
{
    if k <= 0 {
        (seq![], false)
    } else {
        let (o, sep) = mangle(s, k - 1);
        let c = s[k - 1];
        if is_stem_char(c) {
            (o.push(c), false)
        } else if !sep {
            (o.push('_'), true)
        } else {
            (o, sep)
        }
    }
}

/// `trim_matches('_')`.
pub open spec fn trim_underscores(s: Seq<char>) -> Seq<char>
    decreases s.len(),
{
    if s.len() > 0 && s[0] == '_' {
        trim_underscores(s.drop_first())
    } else if s.len() > 0 && s.last() == '_' {
        trim_underscores(s.drop_last())
    } else {
        s
    }
}

/// The file-name stem of the page of one source.
pub open spec fn stem_of_source(source: Seq<char>) -> Seq<char> {
    let s = strip_md(source);
    let t = trim_underscores(mangle(s, s.len() as int).0);
    if t.len() == 0 { "source"@ } else { t }
}

pub fn source_page_stem(source: &str) -> (r: String)
    ensures
        r@ == stem_of_source(source@),
{
    let v = to_chars(source);
    let md = to_chars(".md");
    let mut n = v.len();
    assert(v@.take(n as int) =~= v@);
    proof {
        reveal_strlit(".md");
    }
    while n >= 3 && crate::strs::ends_with_at(&v, 0, n, &md)
        invariant
            n <= v@.len(),
            md@ == ".md"@,
            strip_md(v@) == strip_md(v@.take(n as int)),
        decreases n,
    {
        assert(v@.subrange(0, n as int) =~= v@.take(n as int));
        assert(v@.take(n as int).take(n - 3) =~= v@.take(n - 3));
        n = n - 3;
    }
    assert(v@.subrange(0, n as int) =~= v@.take(n as int));
    let ghost sm = v@.take(n as int);
    let mut out: Vec<char> = Vec::new();
    let mut sep = false;
    let mut i: usize = 0;
    while i < n
        invariant
            i <= n <= v@.len(),
            sm == v@.take(n as int),
            (out@, sep) == mangle(sm, i as int),
        decreases n - i,
    {
        let c = v[i];
        assert(sm[i as int] == c);
        if ('a' <= c && c <= 'z') || ('A' <= c && c <= 'Z') || ('0' <= c && c <= '9') || c == '-' {
            out.push(c);
            sep = false;
        } else if !sep {
            out.push('_');
            sep = true;
        }
        i = i + 1;
    }
    let mut a: usize = 0;
    let mut b: usize = out.len();
    assert(out@.subrange(0, b as int) =~= out@);
    while a < b && (out[a] == '_' || out[b - 1] == '_')
        invariant
            a <= b <= out@.len(),
            trim_underscores(out@) == trim_underscores(out@.subrange(a as int, b as int)),
        decreases b - a,
    {
        let ghost t = out@.subrange(a as int, b as int);
        if out[a] == '_' {
            assert(t[0] == '_');
            assert(t.drop_first() =~= out@.subrange(a + 1, b as int));
            a = a + 1;
        } else {
            assert(t[0] != '_');
            assert(t.last() == '_');
            assert(t.drop_last() =~= out@.subrange(a as int, b - 1));
            b = b - 1;
        }
    }
    proof {
        let t = out@.subrange(a as int, b as int);
        if a < b {
            assert(t[0] == out@[a as int]);
            assert(t.last() == out@[b - 1]);
        }
    }
    if a == b {
        String::from_str("source")
    } else {
        from_chars(&slice_copy(&out, a, b))
    }
}

/// The page name of a source: its stem with `.md`, or the first free `<stem>-<n>.md`.
pub open spec fn source_page_name(source: Seq<char>, used: Set<Seq<char>>) -> Seq<char> {
    let base = stem_of_source(source);
    if !used.contains(base + ".md"@) {
        base + ".md"@
    } else {
        numbered(base + "-"@, first_free(base + "-"@, ".md"@, used), ".md"@)
    }
}

/// The page name of a source, not among `used`; it is added to `used`.
pub fn unique_source_page_name(source: &str, used: &mut Vec<Vec<char>>) -> (r: String)
    requires
        old(used)@.len() < usize::MAX,
    ensures
        r@ == source_page_name(source@, vv(old(used)).to_set()),
        vv(final(used)) == vv(old(used)).push(r@),
        final(used)@.len() == old(used)@.len() + 1,
{
    let base = to_chars(source_page_stem(source).as_str());
    let mut plain = base.clone();
    push_all(&mut plain, &to_chars(".md"));
    assert(plain@ == base@ + ".md"@);
    let name = if !crate::num::contains_chars(used, &plain) {
        plain
    } else {
        let mut prefix = base.clone();
        push_all(&mut prefix, &to_chars("-"));
        let (_, nm) = first_free_name(&prefix, &to_chars(".md"), used);
        nm
    };
    let ghost b = vv(used);
    used.push(name.clone());
    assert(vv(used) =~= b.push(name@));
    from_chars(&name)
}

/// A metadata block of a catalog page (no ranges, heading level, split reason, tags or backlinks).
pub open spec fn catalog_meta(
    kind: Seq<char>,
    path: Seq<char>,
    title: Seq<char>,
    source: Option<Seq<char>>,
    section_path: Seq<Seq<char>>,
    chars: usize,
    parent: Option<Seq<char>>,
    prev: Option<Seq<char>>,
    next: Option<Seq<char>>,
    children: Seq<Seq<char>>,
    outgoing: Seq<Seq<char>>,
) -> MetaV {
    MetaV {
        page_kind: kind,
        output_path: path,
        title,
        source,
        section_path,
        heading_level: None,
        split_reason: None,
        char_count: chars,
        byte_ranges: seq![],
        line_ranges: seq![],
        parent,
        prev,
        next,
        children,
        tags: seq![],
        outgoing_links: outgoing,
        backlinks_count: 0,
    }
}

pub fn catalog_meta_exec(
    kind: &str,
    path: String,
    title: String,
    source: Option<String>,
    section_path: Vec<String>,
    chars: usize,
    parent: Option<String>,
    prev: Option<String>,
    next: Option<String>,
    children: Vec<String>,
    outgoing: Vec<String>,
) -> (m: Metadata)
    ensures
        m@ == catalog_meta(
            kind@,
            path@,
            title@,
            crate::link::resolver::opt_str(source),
            sv(section_path@),
            chars,
            crate::link::resolver::opt_str(parent),
            crate::link::resolver::opt_str(prev),
            crate::link::resolver::opt_str(next),
            sv(children@),
            sv(outgoing@),
        ),
{
    let byte_ranges: Vec<ByteRange> = Vec::new();
    let line_ranges: Vec<LineRange> = Vec::new();
    let tags: Vec<String> = Vec::new();
    let m = Metadata {
        page_kind: String::from_str(kind),
        output_path: path,
        title,
        source,
        section_path,
        heading_level: None,
        split_reason: None,
        char_count: chars,
        byte_ranges,
        line_ranges,
        parent,
        prev,
        next,
        children,
        tags,
        outgoing_links: outgoing,
        backlinks_count: 0,
    };
    assert(m@.byte_ranges =~= Seq::<ByteRange>::empty());
    assert(m@.line_ranges =~= Seq::<LineRange>::empty());
    assert(m@.tags =~= Seq::<Seq<char>>::empty());
    m
}

fn strings3(a: &str, b: &str, c: &str) -> (r: Vec<String>)
    ensures
        sv(r@) == seq![a@, b@, c@],
{
    let mut v: Vec<String> = Vec::new();
    v.push(String::from_str(a));
    v.push(String::from_str(b));
    v.push(String::from_str(c));
    assert(sv(v@) =~= seq![a@, b@, c@]);
    v
}

/// The non-empty sources of the first `k` rows, in row order.
pub open spec fn sources_list(rows: Seq<RowV>, k: int) -> Seq<Seq<char>>
    decreases k,
{
    if k <= 0 {
        seq![]
    } else {
        let l = sources_list(rows, k - 1);
        if rows[k - 1].source.len() > 0 { l.push(rows[k - 1].source) } else { l }
    }
}

/// The first `k` rows made from `src`, in order.
pub open spec fn rows_of_source(rows: Seq<RowV>, src: Seq<char>, k: int) -> Seq<RowV>
    decreases k,
{
    if k <= 0 {
        seq![]
    } else {
        let l = rows_of_source(rows, src, k - 1);
        if rows[k - 1].source == src { l.push(rows[k - 1]) } else { l }
    }
}

/// The table line of one page on a by-source page.
pub open spec fn group_line(r: RowV) -> Seq<char> {
    "| ["@ + cell(r.path) + "](../../../"@ + r.path + ") | `"@ + cell(r.kind) + "` | "@ + cell(r.title) + " | "@
        + decimal(r.chars as nat) + " |\n"@
}

pub open spec fn group_lines(g: Seq<RowV>, k: int) -> Seq<char>
    decreases k,
{
    if k <= 0 {
        seq![]
    } else {
        group_lines(g, k - 1) + group_line(g[k - 1])
    }
}

/// The body of the page of one source.
pub open spec fn source_body(src: Seq<char>, g: Seq<RowV>) -> Seq<char> {
    "# "@ + src + "\n\n"@ + "| generated page | kind | title | chars |\n|---|---|---|---:|\n"@ + group_lines(g, g.len() as int)
}

pub open spec fn by_source_dir() -> Seq<char> {
    "agent/pages/by-source/"@
}

pub open spec fn by_source_section() -> Seq<Seq<char>> {
    seq!["agent"@, "pages"@, "by-source"@]
}

/// Files, generated rows, names used, and `(source, name, pages)` so far.
pub type BySourceAcc = (Seq<(Seq<char>, Seq<char>)>, Seq<RowV>, Seq<Seq<char>>, Seq<(Seq<char>, Seq<char>, nat)>);

pub open spec fn by_source_fold(rows: Seq<RowV>, keys: Seq<Seq<char>>, k: int) -> BySourceAcc
    decreases k,
{
    if k <= 0 {
        (seq![], seq![], seq![], seq![])
    } else {
        let (files, gens, used, entries) = by_source_fold(rows, keys, k - 1);
        let src = keys[k - 1];
        let g = rows_of_source(rows, src, rows.len() as int);
        let name = source_page_name(src, used.to_set());
        let rel = by_source_dir() + name;
        let body = source_body(src, g);
        let meta = catalog_meta(
            "page_catalog"@, rel, src, Some(src), by_source_section(), body.len() as usize, Some("index.md"@), None, None,
            seq![], g.map_values(|r: RowV| r.path),
        );
        (
            files.push((rel, frontmatter_text(meta) + body)),
            gens.push(RowV {
                path: rel,
                kind: "page_catalog"@,
                title: src,
                source: src,
                section: "agent/pages/by-source"@,
                chars: body.len() as usize,
                parent: "index.md"@,
                prev: seq![],
                next: seq![],
            }),
            used.push(name),
            entries.push((src, name, g.len())),
        )
    }
}

pub open spec fn index_lines(es: Seq<(Seq<char>, Seq<char>, nat)>, k: int) -> Seq<char>
    decreases k,
{
    if k <= 0 {
        seq![]
    } else {
        index_lines(es, k - 1) + "- ["@ + es[k - 1].0 + "]("@ + es[k - 1].1 + ") — "@ + decimal(es[k - 1].2) + " pages\n"@
    }
}

/// The files of the by-source catalog and the catalog rows of those files, for sources in the order `keys`.
pub open spec fn by_source_spec(rows: Seq<RowV>, keys: Seq<Seq<char>>) -> (Seq<(Seq<char>, Seq<char>)>, Seq<RowV>) {
    let (files, gens, used, entries) = by_source_fold(rows, keys, keys.len() as int);
    let body = "# Pages By Source\n\n"@ + if entries.len() == 0 { "_(no source-backed pages)_\n"@ } else { index_lines(entries, entries.len() as int) };
    let rel = "agent/pages/by-source/index.md"@;
    let meta = catalog_meta(
        "page_catalog"@, rel, "Pages By Source"@, None, by_source_section(), body.len() as usize, Some("../index.md"@), None,
        None, used, seq![],
    );
    (
        files.push((rel, frontmatter_text(meta) + body)),
        gens.push(RowV {
            path: rel,
            kind: "page_catalog"@,
            title: "Pages By Source"@,
            source: seq![],
            section: "agent/pages/by-source"@,
            chars: body.len() as usize,
            parent: "../index.md"@,
            prev: seq![],
            next: seq![],
        }),
    )
}

pub fn no_strings() -> (r: Vec<String>)
    ensures
        sv(r@) == Seq::<Seq<char>>::empty(),
{
    let v: Vec<String> = Vec::new();
    assert(sv(v@) =~= Seq::<Seq<char>>::empty());
    v
}

fn row_sources(rows: &[CatalogRow]) -> (r: Vec<String>)
    ensures
        sv(r@) == sources_list(rows_view(rows@), rows@.len() as int),
{
    let ghost rv = rows_view(rows@);
    let mut out: Vec<String> = Vec::new();
    let mut k: usize = 0;
    while k < rows.len()
        invariant
            k <= rows@.len(),
            rv == rows_view(rows@),
            sv(out@) == sources_list(rv, k as int),
        decreases rows@.len() - k,
    {
        assert(rv[k as int] == rows@[k as int]@);
        if rows[k].source.unicode_len() > 0 {
            let ghost b = sv(out@);
            out.push(rows[k].source.clone());
            assert(sv(out@) =~= b.push(rows@[k as int].source@));
        }
        k = k + 1;
    }
    out
}

fn rows_for_source(rows: &[CatalogRow], src: &str) -> (r: Vec<CatalogRow>)
    ensures
        rows_view(r@) == rows_of_source(rows_view(rows@), src@, rows@.len() as int),
{
    let ghost rv = rows_view(rows@);
    let sc = to_chars(src);
    let mut out: Vec<CatalogRow> = Vec::new();
    let mut k: usize = 0;
    while k < rows.len()
        invariant
            k <= rows@.len(),
            rv == rows_view(rows@),
            sc@ == src@,
            rows_view(out@) == rows_of_source(rv, src@, k as int),
        decreases rows@.len() - k,
    {
        assert(rv[k as int] == rows@[k as int]@);
        if crate::strs::chars_eq(&to_chars(rows[k].source.as_str()), &sc) {
            rows_seq_push(&mut out, copy_row(&rows[k]));
        }
        k = k + 1;
    }
    out
}

fn group_line_exec(r: &CatalogRow) -> (l: Vec<char>)
    ensures
        l@ == group_line(r@),
{
    let mut out: Vec<char> = Vec::new();
    push_str(&mut out, "| [");
    push_cell(&mut out, r.path.as_str());
    push_str(&mut out, "](../../../");
    push_str(&mut out, r.path.as_str());
    push_str(&mut out, ") | `");
    push_cell(&mut out, r.kind.as_str());
    push_str(&mut out, "` | ");
    push_cell(&mut out, r.title.as_str());
    push_str(&mut out, " | ");
    push_all(&mut out, &decimal_chars(r.chars));
    push_str(&mut out, " |\n");
    out
}

fn source_body_exec(src: &str, g: &Vec<CatalogRow>) -> (b: Vec<char>)
    ensures
        b@ == source_body(src@, rows_view(g@)),
{
    let ghost gv = rows_view(g@);
    let mut out: Vec<char> = Vec::new();
    push_str(&mut out, "# ");
    push_str(&mut out, src);
    push_str(&mut out, "\n\n");
    push_str(&mut out, "| generated page | kind | title | chars |\n|---|---|---|---:|\n");
    let ghost h = out@;
    let mut k: usize = 0;
    while k < g.len()
        invariant
            k <= g@.len(),
            gv == rows_view(g@),
            out@ == h + group_lines(gv, k as int),
        decreases g@.len() - k,
    {
        let r = &g[k];
        assert(gv[k as int] == r@);
        push_all(&mut out, &group_line_exec(r));
        assert(out@ =~= h + group_lines(gv, k + 1));
        k = k + 1;
    }
    out
}

fn row_paths(g: &Vec<CatalogRow>) -> (r: Vec<String>)
    ensures
        sv(r@) == rows_view(g@).map_values(|x: RowV| x.path),
{
    let mut out: Vec<String> = Vec::new();
    let mut k: usize = 0;
    while k < g.len()
        invariant
            k <= g@.len(),
            sv(out@) == rows_view(g@).take(k as int).map_values(|x: RowV| x.path),
        decreases g@.len() - k,
    {
        let ghost b = sv(out@);
        out.push(g[k].path.clone());
        assert(sv(out@) =~= b.push(g@[k as int].path@));
        assert(rows_view(g@)[k as int].path == g@[k as int].path@);
        assert(rows_view(g@).take(k + 1).map_values(|x: RowV| x.path) =~= rows_view(g@).take(k as int).map_values(|x: RowV| x.path).push(rows_view(g@)[k as int].path));
        assert(sv(out@) =~= rows_view(g@).take(k + 1).map_values(|x: RowV| x.path));
        k = k + 1;
    }
    assert(rows_view(g@).take(k as int) =~= rows_view(g@));
    out
}

pub fn file_push(files: &mut Vec<(String, String)>, path: String, text: String)
    ensures
        files_view(final(files)@) == files_view(old(files)@).push((path@, text@)),
{
    let ghost b = files_view(files@);
    files.push((path, text));
    assert(files_view(files@) =~= b.push((path@, text@)));
}

fn texts_of(v: &Vec<Vec<char>>) -> (r: Vec<String>)
    ensures
        sv(r@) == vv(v),
{
    let mut out: Vec<String> = Vec::new();
    let mut k: usize = 0;
    while k < v.len()
        invariant
            k <= v@.len(),
            sv(out@) == vv(v).take(k as int),
        decreases v@.len() - k,
    {
        let ghost b = sv(out@);
        out.push(from_chars(&v[k]));
        assert(sv(out@) =~= b.push(v@[k as int]@));
        assert(vv(v)[k as int] == v@[k as int]@);
        assert(sv(out@) =~= vv(v).take(k + 1));
        k = k + 1;
    }
    assert(vv(v).take(k as int) =~= vv(v));
    out
}

/// The pages listing, for each source file, the pages made from it (and
/// their index), with the catalog rows of those pages. Sources come in
/// text order; rows without a source are left out.
pub fn by_source_catalog(rows: &[CatalogRow]) -> (r: (Vec<(String, String)>, Vec<CatalogRow>))
    ensures
        exists|keys: Seq<Seq<char>>| #![trigger texts_strict(keys)]
            texts_strict(keys) && keys.to_set() == sources_list(rows_view(rows@), rows@.len() as int).to_set()
            && files_view(r.0@) == by_source_spec(rows_view(rows@), keys).0
            && rows_view(r.1@) == by_source_spec(rows_view(rows@), keys).1,
{
    let ghost rv = rows_view(rows@);
    let keys = sorted_unique(&row_sources(rows));
    let ghost kv = sv(keys@);
    let mut files: Vec<(String, String)> = Vec::new();
    let mut gens: Vec<CatalogRow> = Vec::new();
    let mut used: Vec<Vec<char>> = Vec::new();
    let mut entry_lines: Vec<char> = Vec::new();
    let mut k: usize = 0;
    assert(files_view(files@) =~= Seq::<(Seq<char>, Seq<char>)>::empty());
    assert(rows_view(gens@) =~= Seq::<RowV>::empty());
    assert(vv(&used) =~= Seq::<Seq<char>>::empty());
    while k < keys.len()
        invariant
            k <= keys@.len(),
            kv == sv(keys@),
            rv == rows_view(rows@),
            used@.len() == k,
            files_view(files@) == by_source_fold(rv, kv, k as int).0,
            rows_view(gens@) == by_source_fold(rv, kv, k as int).1,
            vv(&used) == by_source_fold(rv, kv, k as int).2,
            entry_lines@ == index_lines(by_source_fold(rv, kv, k as int).3, k as int),
            by_source_fold(rv, kv, k as int).3.len() == k,
        decreases keys@.len() - k,
    {
        let src = &keys[k];
        assert(kv[k as int] == src@);
        let ghost prev = by_source_fold(rv, kv, k as int);
        let g = rows_for_source(rows, src.as_str());
        let name = unique_source_page_name(src.as_str(), &mut used);
        let mut rel = String::from_str("agent/pages/by-source/");
        rel.append(name.as_str());
        let body = source_body_exec(src.as_str(), &g);
        let chars = body.len();
        let meta = catalog_meta_exec(
            "page_catalog", rel.clone(), src.clone(), Some(src.clone()), strings3("agent", "pages", "by-source"), chars,
            Some(String::from_str("index.md")), None, None, no_strings(), row_paths(&g),
        );
        let mut text = to_chars(render_frontmatter(&meta).as_str());
        push_all(&mut text, &body);
        file_push(&mut files, rel.clone(), from_chars(&text));
        rows_seq_push(&mut gens, CatalogRow {
            path: rel,
            kind: String::from_str("page_catalog"),
            title: src.clone(),
            source: src.clone(),
            section: String::from_str("agent/pages/by-source"),
            chars,
            parent: String::from_str("index.md"),
            prev: String::new(),
            next: String::new(),
        });
        push_str(&mut entry_lines, "- [");
        push_str(&mut entry_lines, src.as_str());
        push_str(&mut entry_lines, "](");
        push_str(&mut entry_lines, name.as_str());
        push_str(&mut entry_lines, ") — ");
        push_all(&mut entry_lines, &decimal_chars(g.len()));
        push_str(&mut entry_lines, " pages\n");
        proof {
            let next = by_source_fold(rv, kv, k + 1);
            assert(next.3[k as int] == (src@, name@, g@.len() as nat));
            assert forall|j: int| 0 <= j < k implies next.3[j] == prev.3[j] by {}
            assert(next.3.take(k as int) =~= prev.3);
            lemma_index_lines_prefix(next.3, prev.3, k as int);
            assert(entry_lines@ =~= index_lines(next.3, k + 1));
        }
        k = k + 1;
    }
    let ghost fin = by_source_fold(rv, kv, k as int);
    let mut body: Vec<char> = Vec::new();
    push_str(&mut body, "# Pages By Source\n\n");
    if k == 0 {
        push_str(&mut body, "_(no source-backed pages)_\n");
    } else {
        push_all(&mut body, &entry_lines);
    }
    let rel = String::from_str("agent/pages/by-source/index.md");
    let chars = body.len();
    let meta = catalog_meta_exec(
        "page_catalog", rel.clone(), String::from_str("Pages By Source"), None, strings3("agent", "pages", "by-source"),
        chars, Some(String::from_str("../index.md")), None, None, texts_of(&used), no_strings(),
    );
    let mut text = to_chars(render_frontmatter(&meta).as_str());
    push_all(&mut text, &body);
    file_push(&mut files, rel.clone(), from_chars(&text));
    rows_seq_push(&mut gens, CatalogRow {
        path: rel,
        kind: String::from_str("page_catalog"),
        title: String::from_str("Pages By Source"),
        source: String::new(),
        section: String::from_str("agent/pages/by-source"),
        chars,
        parent: String::from_str("../index.md"),
        prev: String::new(),
        next: String::new(),
    });
    assert(keys@.len() == k);
    assert(texts_strict(kv));
    (files, gens)
}

proof fn lemma_index_lines_prefix(a: Seq<(Seq<char>, Seq<char>, nat)>, b: Seq<(Seq<char>, Seq<char>, nat)>, k: int)
    requires
        0 <= k <= b.len(),
        k <= a.len(),
        forall|j: int| 0 <= j < k ==> a[j] == b[j],
    ensures
        index_lines(a, k) == index_lines(b, k),
    decreases k,
{
    if k > 0 {
        lemma_index_lines_prefix(a, b, k - 1);
    }
}

// ---------------------------------------------------------------------------
// The page catalog
// ---------------------------------------------------------------------------

/// Rows order by page path.
impl Keyed for CatalogRow {
    open spec fn key_lt(&self, other: &Self) -> bool {
        path_lt(self.path@, other.path@)
    }

    fn lt(&self, other: &Self) -> (r: bool) {
        path_lt_exec(self.path.as_str(), other.path.as_str())
    }

    proof fn lemma_asym(a: &Self, b: &Self) {
        lemma_path_lt_asym(a.path@, b.path@);
    }

    proof fn lemma_neg_trans(a: &Self, b: &Self, c: &Self) {
        lemma_path_le_trans(a.path@, b.path@, c.path@);
    }
}

/// `page-NNN.md`.
pub open spec fn catalog_page_name(n: nat) -> Seq<char> {
    "page-"@ + zero_pad(decimal(n), 3) + ".md"@
}

pub fn catalog_page_name_exec(n: usize) -> (r: String)
    ensures
        r@ == catalog_page_name(n as nat),
{
    let mut v = to_chars("page-");
    push_all(&mut v, &zero_pad_chars(n, 3));
    push_all(&mut v, &to_chars(".md"));
    from_chars(&v)
}

/// Is the page under `agent/pages/` (component-wise)?
pub open spec fn under_agent_pages(path: Seq<char>) -> bool {
    let cs = components(path);
    cs.len() >= 2 && cs[0] == "agent"@ && cs[1] == "pages"@
}

/// The rows kept for the catalog: those not under `agent/pages/`.
pub open spec fn kept_rows(rows: Seq<RowV>, k: int) -> Seq<RowV>
    decreases k,
{
    if k <= 0 {
        seq![]
    } else {
        let l = kept_rows(rows, k - 1);
        if under_agent_pages(rows[k - 1].path) { l } else { l.push(rows[k - 1]) }
    }
}

/// The row of the catalog's own index.
pub open spec fn catalog_index_row() -> RowV {
    RowV {
        path: "agent/pages/index.md"@,
        kind: "page_catalog"@,
        title: "Page Catalog"@,
        source: seq![],
        section: "agent/pages"@,
        chars: 0,
        parent: "../index.md"@,
        prev: seq![],
        next: seq![],
    }
}

/// The line of catalog page `i` (0-based) on the index.
pub open spec fn page_link_line(i: int, rows: Seq<RowV>) -> Seq<char> {
    "- [Page "@ + decimal((i + 1) as nat) + "]("@ + catalog_page_name((i + 1) as nat) + ") — "@ + decimal(rows.len())
        + " pages, `"@ + rows[0].path + "` to `"@ + rows.last().path + "`\n"@
}

pub open spec fn page_link_lines(pages: Seq<Seq<RowV>>, k: int) -> Seq<char>
    decreases k,
{
    if k <= 0 {
        seq![]
    } else {
        page_link_lines(pages, k - 1) + page_link_line(k - 1, pages[k - 1])
    }
}

pub open spec fn page_children(n: nat) -> Seq<Seq<char>> {
    if n <= 1 { seq![] } else { Seq::new(n, |i: int| catalog_page_name((i + 1) as nat)) }
}

/// The file of catalog page `i` (0-based) of `n`.
pub open spec fn catalog_page_file(i: int, n: int, rows: Seq<RowV>) -> (Seq<char>, Seq<char>) {
    let name = catalog_page_name((i + 1) as nat);
    let title = "Page Catalog "@ + decimal((i + 1) as nat);
    let body = "# "@ + title + "\n\n"@ + table_text(rows);
    let meta = catalog_meta(
        "page_catalog"@, "agent/pages/"@ + name, title, None, seq!["agent"@, "pages"@], body.len() as usize,
        Some("index.md"@), if i > 0 { Some(catalog_page_name(i as nat)) } else { None },
        if i + 1 < n { Some(catalog_page_name((i + 2) as nat)) } else { None }, seq![], seq![],
    );
    ("agent/pages/"@ + name, frontmatter_text(meta) + body)
}

/// The index of the catalog and, when it takes more than one page, each page, for rows in catalog order.
pub open spec fn catalog_files(rows: Seq<RowV>) -> Seq<(Seq<char>, Seq<char>)> {
    let pages = paginate(rows);
    let children = page_children(pages.len());
    let body = "# Page Catalog\n\n"@ + if children.len() == 0 { table_text(rows) } else { page_link_lines(pages, pages.len() as int) };
    let meta = catalog_meta(
        "page_catalog"@, "agent/pages/index.md"@, "Page Catalog"@, None, seq!["agent"@, "pages"@], body.len() as usize,
        Some("../index.md"@), None, None, children, seq![],
    );
    let index = ("agent/pages/index.md"@, frontmatter_text(meta) + body);
    if children.len() == 0 {
        seq![index]
    } else {
        seq![index] + Seq::new(pages.len(), |i: int| catalog_page_file(i, pages.len() as int, pages[i]))
    }
}

fn under_agent_pages_exec(path: &str) -> (b: bool)
    ensures
        b == under_agent_pages(path@),
{
    let cs = crate::paths::components_exec(&to_chars(path));
    cs.len() >= 2 && crate::strs::eq_str(&cs[0], "agent") && crate::strs::eq_str(&cs[1], "pages")
}

pub fn strings2(a: &str, b: &str) -> (r: Vec<String>)
    ensures
        sv(r@) == seq![a@, b@],
{
    let mut v: Vec<String> = Vec::new();
    v.push(String::from_str(a));
    v.push(String::from_str(b));
    assert(sv(v@) =~= seq![a@, b@]);
    v
}

fn page_link_line_exec(i: usize, pr: &Vec<CatalogRow>) -> (l: Vec<char>)
    requires
        pr@.len() > 0,
        i < usize::MAX,
    ensures
        l@ == page_link_line(i as int, rows_view(pr@)),
{
    let last = pr.len() - 1;
    assert(rows_view(pr@)[0] == pr@[0]@);
    assert(rows_view(pr@)[last as int] == pr@[last as int]@);
    let mut body: Vec<char> = Vec::new();
    push_str(&mut body, "- [Page ");
    push_all(&mut body, &decimal_chars(i + 1));
    push_str(&mut body, "](");
    push_str(&mut body, catalog_page_name_exec(i + 1).as_str());
    push_str(&mut body, ") — ");
    push_all(&mut body, &decimal_chars(pr.len()));
    push_str(&mut body, " pages, `");
    push_str(&mut body, pr[0].path.as_str());
    push_str(&mut body, "` to `");
    push_str(&mut body, pr[last].path.as_str());
    push_str(&mut body, "`\n");
    body
}

fn catalog_files_exec(rows: &Vec<CatalogRow>, files: &mut Vec<(String, String)>)
    ensures
        files_view(final(files)@) == files_view(old(files)@) + catalog_files(rows_view(rows@)),
{
    let ghost rv = rows_view(rows@);
    let ghost f0 = files_view(files@);
    let pages = paginate_catalog_rows(rows.as_slice());
    let ghost pv = paginate(rv);
    proof {
        lemma_paginate_keeps_rows(rv);
    }
    let n = pages.len();
    let mut children: Vec<String> = Vec::new();
    if n > 1 {
        let mut i: usize = 0;
        while i < n
            invariant
                i <= n,
                sv(children@) == Seq::new(i as nat, |j: int| catalog_page_name((j + 1) as nat)),
            decreases n - i,
        {
            let nm = catalog_page_name_exec(i + 1);
            let ghost b = sv(children@);
            children.push(nm);
            assert(sv(children@) =~= b.push(catalog_page_name((i + 1) as nat)));
            assert(sv(children@) =~= Seq::new((i + 1) as nat, |j: int| catalog_page_name((j + 1) as nat)));
            i = i + 1;
        }
    }
    assert(sv(children@) =~= page_children(n as nat));
    let mut body: Vec<char> = Vec::new();
    push_str(&mut body, "# Page Catalog\n\n");
    if children.len() == 0 {
        push_all(&mut body, &table_exec(rows));
    } else {
        let ghost h = body@;
        let mut i: usize = 0;
        while i < n
            invariant
                i <= n,
                n == pages@.len(),
                pages@.len() == pv.len(),
                forall|j: int| 0 <= j < pages@.len() ==> rows_view(#[trigger] pages@[j]@) == pv[j],
                forall|j: int| 0 <= j < pv.len() ==> #[trigger] pv[j].len() > 0,
                body@ == h + page_link_lines(pv, i as int),
            decreases n - i,
        {
            let pr = &pages[i];
            assert(rows_view(pr@) == pv[i as int]);
            assert(pv[i as int].len() > 0);
            push_all(&mut body, &page_link_line_exec(i, pr));
            assert(body@ =~= h + page_link_lines(pv, i + 1));
            i = i + 1;
        }
    }
    let chars = body.len();
    let meta = catalog_meta_exec(
        "page_catalog", String::from_str("agent/pages/index.md"), String::from_str("Page Catalog"), None,
        strings2("agent", "pages"), chars, Some(String::from_str("../index.md")), None, None, children, no_strings(),
    );
    let mut text = to_chars(render_frontmatter(&meta).as_str());
    push_all(&mut text, &body);
    file_push(files, String::from_str("agent/pages/index.md"), from_chars(&text));
    if n <= 1 {
        assert(files_view(files@) =~= f0 + catalog_files(rv));
        return;
    }
    let ghost f1 = files_view(files@);
    let mut i: usize = 0;
    while i < n
        invariant
            i <= n,
            n == pages@.len(),
            n > 1,
            pages@.len() == pv.len(),
            forall|j: int| 0 <= j < pages@.len() ==> rows_view(#[trigger] pages@[j]@) == pv[j],
            files_view(files@) == f1 + Seq::new(i as nat, |j: int| catalog_page_file(j, n as int, pv[j])),
        decreases n - i,
    {
        let name = catalog_page_name_exec(i + 1);
        let mut title = String::from_str("Page Catalog ");
        title.append(from_chars(&decimal_chars(i + 1)).as_str());
        let mut body: Vec<char> = Vec::new();
        push_str(&mut body, "# ");
        push_str(&mut body, title.as_str());
        push_str(&mut body, "\n\n");
        assert(rows_view(pages@[i as int]@) == pv[i as int]);
        push_all(&mut body, &table_exec(&pages[i]));
        let mut rel = String::from_str("agent/pages/");
        rel.append(name.as_str());
        let prev = if i > 0 { Some(catalog_page_name_exec(i)) } else { None };
        let next = if i + 1 < n { Some(catalog_page_name_exec(i + 2)) } else { None };
        let chars = body.len();
        let meta = catalog_meta_exec(
            "page_catalog", rel.clone(), title, None, strings2("agent", "pages"), chars, Some(String::from_str("index.md")),
            prev, next, no_strings(), no_strings(),
        );
        let mut text = to_chars(render_frontmatter(&meta).as_str());
        push_all(&mut text, &body);
        let ghost before = files_view(files@);
        file_push(files, rel, from_chars(&text));
        assert(files_view(files@) =~= f1 + Seq::new((i + 1) as nat, |j: int| catalog_page_file(j, n as int, pv[j])));
        i = i + 1;
    }
    assert(files_view(files@) =~= f0 + catalog_files(rv));
}

/// The files of the page catalog: the pages by source, then the catalog's
/// index and pages. `rows` are the rows of all generated pages; those under
/// `agent/pages/` are replaced by the catalog's own, and the rows are listed
/// in path order.
pub fn page_catalog(rows: &[CatalogRow]) -> (r: Vec<(String, String)>)
    ensures
        exists|keys: Seq<Seq<char>>, unsorted: Seq<CatalogRow>, all: Seq<CatalogRow>|
            #![trigger texts_strict(keys), rows_view(unsorted), sorted_by_key(all)]
            ({
                let kept = kept_rows(rows_view(rows@), rows@.len() as int);
                let (bs_files, bs_rows) = by_source_spec(kept, keys);
                &&& texts_strict(keys)
                &&& keys.to_set() == sources_list(kept, kept.len() as int).to_set()
                &&& rows_view(unsorted) == kept.push(catalog_index_row()).add(bs_rows)
                &&& sorted_by_key(all)
                &&& all.to_multiset() == unsorted.to_multiset()
                &&& files_view(r@) == bs_files + catalog_files(rows_view(all))
            }),
{
    let ghost rv = rows_view(rows@);
    let mut kept: Vec<CatalogRow> = Vec::new();
    let mut k: usize = 0;
    while k < rows.len()
        invariant
            k <= rows@.len(),
            rv == rows_view(rows@),
            rows_view(kept@) == kept_rows(rv, k as int),
        decreases rows@.len() - k,
    {
        assert(rv[k as int] == rows@[k as int]@);
        if !under_agent_pages_exec(rows[k].path.as_str()) {
            rows_seq_push(&mut kept, copy_row(&rows[k]));
        }
        k = k + 1;
    }
    let (mut files, by_rows) = by_source_catalog(kept.as_slice());
    let ghost kv = rows_view(kept@);
    let ghost bsr = rows_view(by_rows@);
    let mut all: Vec<CatalogRow> = Vec::new();
    let mut j: usize = 0;
    while j < kept.len()
        invariant
            j <= kept@.len(),
            kv == rows_view(kept@),
            rows_view(all@) == kv.take(j as int),
        decreases kept@.len() - j,
    {
        rows_seq_push(&mut all, copy_row(&kept[j]));
        assert(rows_view(all@) =~= kv.take(j + 1));
        j = j + 1;
    }
    assert(kv.take(j as int) =~= kv);
    rows_seq_push(&mut all, CatalogRow {
        path: String::from_str("agent/pages/index.md"),
        kind: String::from_str("page_catalog"),
        title: String::from_str("Page Catalog"),
        source: String::new(),
        section: String::from_str("agent/pages"),
        chars: 0,
        parent: String::from_str("../index.md"),
        prev: String::new(),
        next: String::new(),
    });
    let ghost with_index = rows_view(all@);
    let mut q: usize = 0;
    while q < by_rows.len()
        invariant
            q <= by_rows@.len(),
            bsr == rows_view(by_rows@),
            rows_view(all@) == with_index + bsr.take(q as int),
        decreases by_rows@.len() - q,
    {
        rows_seq_push(&mut all, copy_row(&by_rows[q]));
        assert(rows_view(all@) =~= with_index + bsr.take(q + 1));
        q = q + 1;
    }
    assert(bsr.take(q as int) =~= bsr);
    let ghost unsorted = all@;
    let sorted = sort_by_key(all);
    assert(rows_view(unsorted) =~= kv.push(catalog_index_row()).add(bsr));
    catalog_files_exec(&sorted, &mut files);
    files
}

// ---------------------------------------------------------------------------
// Rows of generated files
// ---------------------------------------------------------------------------

/// `s.trim_matches('"')`.
pub open spec fn trim_quotes(s: Seq<char>) -> Seq<char>
    decreases s.len(),
{
    if s.len() > 0 && s[0] == '"' {
        trim_quotes(s.drop_first())
    } else if s.len() > 0 && s.last() == '"' {
        trim_quotes(s.drop_last())
    } else {
        s
    }
}

/// The first line starting with `prefix`.
pub open spec fn line_with_prefix(ls: Seq<Seq<char>>, prefix: Seq<char>) -> Option<Seq<char>>
    decreases ls.len(),
{
    if ls.len() == 0 {
        None
    } else if crate::strs::starts_with(ls[0], prefix) {
        Some(ls[0])
    } else {
        line_with_prefix(ls.drop_first(), prefix)
    }
}

/// The value of `  key:` in a page's metadata block: trimmed, quotes removed; none when empty.
pub open spec fn metadata_value_of(body: Seq<char>, key: Seq<char>) -> Option<Seq<char>> {
    let prefix = "  "@ + key + ":"@;
    match line_with_prefix(crate::strs::lines(body), prefix) {
        Some(l) => {
            let v = crate::strs::trim(l.skip(prefix.len() as int));
            if v.len() == 0 { None } else { Some(trim_quotes(v)) }
        },
        None => None,
    }
}

pub fn metadata_value(body: &str, key: &str) -> (r: Option<String>)
    ensures
        match metadata_value_of(body@, key@) {
            Some(v) => r matches Some(x) && x@ == v,
            None => r is None,
        },
{
    let mut prefix = to_chars("  ");
    push_all(&mut prefix, &to_chars(key));
    push_all(&mut prefix, &to_chars(":"));
    assert(prefix@ =~= "  "@ + key@ + ":"@);
    let ls = crate::strs::lines_chars(&to_chars(body));
    let ghost lv = vv(&ls);
    let mut i: usize = 0;
    assert(lv.skip(0) =~= lv);
    while i < ls.len()
        invariant
            i <= ls@.len(),
            lv == vv(&ls),
            lv == crate::strs::lines(body@),
            prefix@ == "  "@ + key@ + ":"@,
            line_with_prefix(lv, prefix@) == line_with_prefix(lv.skip(i as int), prefix@),
        decreases ls@.len() - i,
    {
        assert(lv.skip(i as int)[0] == ls@[i as int]@);
        assert(lv.skip(i as int).drop_first() =~= lv.skip(i + 1));
        let l = &ls[i];
        assert(l@.subrange(0, l@.len() as int) =~= l@);
        if crate::strs::starts_with_at(l, 0, l.len(), &prefix) {
            assert(line_with_prefix(lv, prefix@) == Some(l@));
            let (a, b) = crate::strs::trim_idx(l, prefix.len(), l.len());
            assert(l@.subrange(prefix@.len() as int, l@.len() as int) =~= l@.skip(prefix@.len() as int));
            if a == b {
                return None;
            }
            let mut p = a;
            let mut q = b;
            while p < q && (l[p] == '"' || l[q - 1] == '"')
                invariant
                    a <= p <= q <= b <= l@.len(),
                    trim_quotes(l@.subrange(a as int, b as int)) == trim_quotes(l@.subrange(p as int, q as int)),
                decreases q - p,
            {
                let ghost t = l@.subrange(p as int, q as int);
                if l[p] == '"' {
                    assert(t[0] == '"');
                    assert(t.drop_first() =~= l@.subrange(p + 1, q as int));
                    p = p + 1;
                } else {
                    assert(t[0] != '"');
                    assert(t.last() == '"');
                    assert(t.drop_last() =~= l@.subrange(p as int, q - 1));
                    q = q - 1;
                }
            }
            proof {
                let t = l@.subrange(p as int, q as int);
                if p < q {
                    assert(t[0] == l@[p as int]);
                    assert(t.last() == l@[q - 1]);
                }
            }
            return Some(from_chars(&slice_copy(l, p, q)));
        }
        i = i + 1;
    }
    assert(lv.skip(i as int) =~= Seq::<Seq<char>>::empty());
    None
}

/// The kind of a page that has no `page_kind` in its metadata.
pub open spec fn infer_page_kind(rel: Seq<char>) -> Seq<char> {
    let cs = components(rel);
    let name = crate::paths::file_name(rel);
    if cs == seq!["index.md"@] || cs == seq!["_unresolved.md"@] || name == "_index.md"@
        || (cs.len() > 0 && (cs[0] == "headings"@ || cs[0] == "links"@ || cs[0] == "tags"@)) {
        "paged_index"@
    } else if cs.len() > 0 && cs[0] == "fragments"@ && name == "index.md"@ {
        "entry"@
    } else {
        "leaf"@
    }
}

fn infer_page_kind_exec(rel: &str) -> (r: String)
    ensures
        r@ == infer_page_kind(rel@),
{
    let cs = crate::paths::components_exec(&to_chars(rel));
    let name = crate::paths::file_name_exec(rel);
    let one = cs.len() == 1;
    proof {
        if one {
            assert(vv(&cs) =~= seq![vv(&cs)[0]]);
        }
    }
    let first_is = |w: &str| -> (b: bool)
        ensures
            b == (cs@.len() > 0 && cs@[0]@ == w@),
    {
        cs.len() > 0 && crate::strs::eq_str(&cs[0], w)
    };
    let only = |w: &str| -> (b: bool)
        ensures
            b == (vv(&cs) == seq![w@]),
    {
        if cs.len() == 1 {
            assert(vv(&cs) =~= seq![cs@[0]@]);
            crate::strs::eq_str(&cs[0], w)
        } else {
            false
        }
    };
    if only("index.md") || only("_unresolved.md") || crate::strs::eq_str(&name, "_index.md") || first_is("headings")
        || first_is("links") || first_is("tags") {
        return String::from_str("paged_index");
    }
    if first_is("fragments") && crate::strs::eq_str(&name, "index.md") {
        return String::from_str("entry");
    }
    String::from_str("leaf")
}

/// The body after a leading `---` block (the whole body when there is none).
pub open spec fn strip_frontmatter(body: Seq<char>) -> Seq<char> {
    if !crate::strs::starts_with(body, "---\n"@) {
        body
    } else {
        let rest = body.skip(4);
        match crate::budget::find_from(rest, "\n---\n"@, 0) {
            Some(end) => rest.skip(end + 5),
            None => body,
        }
    }
}

/// The text of the first heading after the metadata block.
pub open spec fn first_heading(body: Seq<char>) -> Option<Seq<char>> {
    let hs = crate::notes::headings::headings_of(strip_frontmatter(body));
    if hs.len() > 0 { Some(hs[0].1) } else { None }
}

/// The catalog row of one generated file.
pub open spec fn row_of(rel: Seq<char>, body: Seq<char>) -> RowV {
    let meta = |k: Seq<char>| metadata_value_of(body, k);
    RowV {
        path: rel,
        kind: match meta("page_kind"@) { Some(v) => v, None => infer_page_kind(rel) },
        title: match meta("title"@) { Some(v) => v, None => match first_heading(body) { Some(h) => h, None => rel } },
        source: match meta("source"@) { Some(v) => v, None => seq![] },
        section: crate::strs::join(components(rel), " > "@),
        chars: body.len() as usize,
        parent: match meta("parent"@) { Some(v) => v, None => seq![] },
        prev: match meta("prev"@) { Some(v) => v, None => seq![] },
        next: match meta("next"@) { Some(v) => v, None => seq![] },
    }
}

/// The kind of a page from its path alone.
pub fn infer_page_kind_text(rel: &str) -> (r: String)
    ensures
        r@ == infer_page_kind(rel@),
{
    infer_page_kind_exec(rel)
}

fn strip_frontmatter_exec(body: &[char]) -> (r: Vec<char>)
    ensures
        r@ == strip_frontmatter(body@),
{
    if !crate::strs::starts_with_str(body, "---\n") {
        return vstd::slice::slice_to_vec(body);
    }
    proof {
        reveal_strlit("---\n");
    }
    let rest = slice_copy(body, 4, body.len());
    assert(body@.subrange(4, body@.len() as int) =~= body@.skip(4));
    let pat = to_chars("\n---\n");
    proof {
        reveal_strlit("\n---\n");
    }
    match crate::budget::find_from_exec(&rest, &pat, 0) {
        Some(end) => {
            proof {
                crate::budget::lemma_find_from(rest@, pat@, 0);
            }
            let r = slice_copy(&rest, end + 5, rest.len());
            assert(rest@.subrange(end + 5, rest@.len() as int) =~= rest@.skip(end + 5));
            r
        },
        None => vstd::slice::slice_to_vec(body),
    }
}

/// The text after a leading `---` block.
pub fn strip_frontmatter_text(body: &str) -> (r: String)
    ensures
        r@ == strip_frontmatter(body@),
{
    from_chars(&strip_frontmatter_exec(&to_chars(body)))
}

fn or_empty(v: Option<String>) -> (r: String)
    ensures
        r@ == match v { Some(x) => x@, None => Seq::<char>::empty() },
{
    match v {
        Some(x) => x,
        None => String::new(),
    }
}

/// The catalog row of one generated file: its metadata, or what its path
/// and first heading tell when a value is missing.
pub fn catalog_row_of(rel: &str, body: &str) -> (r: CatalogRow)
    ensures
        r@ == row_of(rel@, body@),
{
    let kind = match metadata_value(body, "page_kind") {
        Some(v) => v,
        None => infer_page_kind_exec(rel),
    };
    let title = match metadata_value(body, "title") {
        Some(v) => v,
        None => {
            let hs = crate::notes::headings::extract(from_chars(&strip_frontmatter_exec(&to_chars(body))).as_str());
            if hs.len() > 0 {
                assert(crate::notes::headings::headings_view(hs@)[0] == (hs@[0].level, hs@[0].text@));
                hs[0].text.clone()
            } else {
                String::from_str(rel)
            }
        },
    };
    let cs = crate::paths::components_exec(&to_chars(rel));
    let section = from_chars(&crate::strs::join_chars(&cs, &to_chars(" > ")));
    CatalogRow {
        path: String::from_str(rel),
        kind,
        title,
        source: or_empty(metadata_value(body, "source")),
        section,
        chars: body.unicode_len(),
        parent: or_empty(metadata_value(body, "parent")),
        prev: or_empty(metadata_value(body, "prev")),
        next: or_empty(metadata_value(body, "next")),
    }
}

/// The catalog rows of generated files (path and text each), in path order.
pub fn catalog_rows(files: &[(String, String)]) -> (r: Vec<CatalogRow>)
    ensures
        sorted_by_key(r@),
        r@.len() == files@.len(),
        exists|unsorted: Seq<CatalogRow>| #![trigger unsorted.to_multiset()]
            r@.to_multiset() == unsorted.to_multiset() && unsorted.len() == files@.len()
            && forall|i: int| 0 <= i < files@.len() ==> (#[trigger] unsorted[i])@ == row_of(files@[i].0@, files@[i].1@),
{
    let mut rows: Vec<CatalogRow> = Vec::new();
    let mut i: usize = 0;
    while i < files.len()
        invariant
            i <= files@.len(),
            rows@.len() == i,
            forall|k: int| 0 <= k < i ==> (#[trigger] rows@[k])@ == row_of(files@[k].0@, files@[k].1@),
        decreases files@.len() - i,
    {
        rows.push(catalog_row_of(files[i].0.as_str(), files[i].1.as_str()));
        i = i + 1;
    }
    let ghost unsorted = rows@;
    let sorted = sort_by_key(rows);
    proof {
        sorted@.to_multiset_ensures();
        unsorted.to_multiset_ensures();
        assert(sorted@.len() == sorted@.to_multiset().len());
        assert(unsorted.len() == unsorted.to_multiset().len());
    }
    sorted
}

} // verus!
