//! The agent's term index: words an agent may search for (tags, headings,
//! titles, source file names, link labels), each with the pages it occurs on.
use vstd::prelude::*;
use crate::agent_catalog::{
    catalog_meta, catalog_meta_exec, catalog_page_name, catalog_page_name_exec, cell, file_push, files_view, first_heading,
    metadata_value, metadata_value_of, no_strings, push_cell, push_str, strings2, strip_frontmatter,
};
use crate::metadata_renderer::{frontmatter_text, render_frontmatter, Metadata};
use crate::num::{decimal, decimal_chars};
use crate::order::{path_lt, path_lt_exec, same_path, same_path_exec, text_lt, text_lt_exec, lemma_text_lt_total, lemma_text_lt_trans, lemma_text_lt_irrefl};
use crate::paths::{components, path_of, stem};
use crate::pattern::{captures_all, groups_view, regex_all_captures};
use crate::render::text::{regex_or_same};
use crate::strs::{from_chars, join, push_all, slice_copy, sv, to_chars, trim, vv};

verus! {

/// `str::to_lowercase`: the Unicode lower-case mapping of each character.
pub uninterp spec fn lowercase_of(s: Seq<char>) -> Seq<char>;

/// `str::to_lowercase`. Its result, a function of the text alone, is named `lowercase_of`.
#[verifier::external_body]
fn to_lower(s: &str) -> (r: String)
    ensures
        r@ == lowercase_of(s@),
{
    s.to_lowercase()
}

// ---------------------------------------------------------------------------
// Terms
// ---------------------------------------------------------------------------

pub open spec fn link_pattern() -> Seq<char> {
    "\\[([^\\]\\n]+)\\]\\([^)]+\\)"@
}

pub open spec fn page_number_pattern() -> Seq<char> {
    "^page-\\d+$"@
}

/// A term as it is listed: link markup flattened, trimmed, lower case.
pub open spec fn normalized_term(t: Seq<char>) -> Seq<char> {
    lowercase_of(trim(regex_or_same(link_pattern(), t, "$1"@)))
}

/// Terms that name the wiki's own structure are not listed.
pub open spec fn suppressed_term(t: Seq<char>) -> bool {
    t == "index"@ || t == "_index"@ || t == "headings"@ || t == "links"@ || t == "tags"@ || t == "fragments"@
        || t == "page catalog"@ || regex_captures_some(page_number_pattern(), t)
}

pub open spec fn regex_captures_some(p: Seq<char>, t: Seq<char>) -> bool {
    crate::pattern::regex_captures(p, t) is Some
}

/// A term occurrence: (normalized term, kind, page).
pub type Occurrence = (Seq<char>, Seq<char>, Seq<char>);

/// The occurrence a raw term gives, if it is listed.
pub open spec fn occurrence(raw: Seq<char>, kind: Seq<char>, page: Seq<char>) -> Seq<Occurrence> {
    let t = normalized_term(raw);
    if t.len() == 0 || suppressed_term(t) { seq![] } else { seq![(t, kind, page)] }
}

/// The tag a page under `tags/` stands for (`tags/a/b.md` → `a/b`), not the tag index itself.
pub open spec fn tag_term_of(rel: Seq<char>) -> Option<Seq<char>> {
    let cs = components(rel);
    if cs.len() == 0 || cs[0] != "tags"@ || cs == seq!["tags"@, "index.md"@] {
        None
    } else {
        let rest = cs.skip(1);
        if rest.len() == 0 { Some(seq![]) } else { Some(path_of(rest.drop_last().push(stem(rest.last())))) }
    }
}

/// Pages generated as indexes, whose words are not listed.
pub open spec fn suppressed_source(rel: Seq<char>) -> bool {
    let cs = components(rel);
    cs == seq!["index.md"@] || cs == seq!["_unresolved.md"@] || crate::paths::file_name(rel) == "_index.md"@
        || (cs.len() > 0 && (cs[0] == "headings"@ || cs[0] == "links"@ || cs[0] == "agent"@))
}

pub open spec fn under_agent_terms(rel: Seq<char>) -> bool {
    let cs = components(rel);
    cs.len() >= 2 && cs[0] == "agent"@ && cs[1] == "terms"@
}

pub open spec fn occurrences_of_list(raws: Seq<Seq<char>>, kind: Seq<char>, page: Seq<char>, k: int) -> Seq<Occurrence>
    decreases k,
{
    if k <= 0 {
        seq![]
    } else {
        occurrences_of_list(raws, kind, page, k - 1) + occurrence(raws[k - 1], kind, page)
    }
}

/// The labels of Markdown links in a text, flattened.
pub open spec fn link_labels(body: Seq<char>) -> Seq<Seq<char>> {
    match regex_all_captures(link_pattern(), body) {
        Some(all) => all.map_values(|g: Seq<Option<Seq<char>>>|
            regex_or_same(link_pattern(), if g.len() > 1 && g[1] is Some { g[1]->0 } else { seq![] }, "$1"@)),
        None => seq![],
    }
}

/// The term occurrences of one generated file.
pub open spec fn file_occurrences(rel: Seq<char>, body: Seq<char>) -> Seq<Occurrence> {
    if under_agent_terms(rel) {
        seq![]
    } else {
        match tag_term_of(rel) {
            Some(t) => occurrence(t, "tag"@, rel),
            None => if suppressed_source(rel) {
                seq![]
            } else {
                let hs = crate::notes::headings::headings_of(strip_frontmatter(body)).map_values(|h: (u8, Seq<char>)| h.1);
                occurrences_of_list(hs, "heading"@, rel, hs.len() as int)
                    + match metadata_value_of(body, "title"@) { Some(t) => occurrence(t, "title"@, rel), None => seq![] }
                    + match metadata_value_of(body, "source"@) {
                        Some(src) => match crate::link::resolver::file_stem(src) {
                            Some(st) => occurrence(st, "file"@, rel),
                            None => seq![],
                        },
                        None => seq![],
                    }
                    + occurrences_of_list(link_labels(body), "link_label"@, rel, link_labels(body).len() as int)
            },
        }
    }
}

/// The occurrences of the first `k` files.
pub open spec fn files_occurrences(files: Seq<(Seq<char>, Seq<char>)>, k: int) -> Seq<Occurrence>
    decreases k,
{
    if k <= 0 {
        seq![]
    } else {
        files_occurrences(files, k - 1) + file_occurrences(files[k - 1].0, files[k - 1].1)
    }
}

// ---------------------------------------------------------------------------
// The table of terms
// ---------------------------------------------------------------------------

/// A row: the term and its kind, and the pages it occurs on.
pub type TermRowV = ((Seq<char>, Seq<char>), Seq<Seq<char>>);

/// Term order: by term, then by kind.
pub open spec fn key_lt(a: (Seq<char>, Seq<char>), b: (Seq<char>, Seq<char>)) -> bool {
    text_lt(a.0, b.0) || (a.0 == b.0 && text_lt(a.1, b.1))
}

pub open spec fn row_pos(e: Seq<TermRowV>, key: (Seq<char>, Seq<char>)) -> int
    decreases e.len(),
{
    if e.len() > 0 && key_lt(e[0].0, key) {
        1 + row_pos(e.drop_first(), key)
    } else {
        0
    }
}

/// The page recorded under a term: its row found or made, the page put in
/// path order unless a path naming the same file is there.
pub open spec fn add_occurrence(e: Seq<TermRowV>, o: Occurrence) -> Seq<TermRowV> {
    let key = (o.0, o.1);
    let c = row_pos(e, key);
    if c < e.len() && e[c].0 == key {
        e.update(c, (key, crate::render::tags::add_path(e[c].1, o.2)))
    } else {
        e.take(c) + seq![(key, seq![o.2])] + e.skip(c)
    }
}

/// The rows that recording the occurrences one after another gives.
pub open spec fn rows_of(os: Seq<Occurrence>) -> Seq<TermRowV>
    decreases os.len(),
{
    if os.len() == 0 {
        seq![]
    } else {
        add_occurrence(rows_of(os.drop_last()), os.last())
    }
}

// ---------------------------------------------------------------------------
// Collecting occurrences
// ---------------------------------------------------------------------------

pub open spec fn occs_view(v: Seq<(String, String, String)>) -> Seq<Occurrence> {
    v.map_values(|o: (String, String, String)| (o.0@, o.1@, o.2@))
}

fn replace_or_same(pattern: &str, t: &str, rep: &str) -> (r: String)
    ensures
        r@ == regex_or_same(pattern@, t@, rep@),
{
    match crate::pattern::replace_all(pattern, t, rep) {
        Some(n) => n,
        None => String::from_str(t),
    }
}

fn normalize_term(raw: &str) -> (r: String)
    ensures
        r@ == normalized_term(raw@),
{
    let flat = replace_or_same("\\[([^\\]\\n]+)\\]\\([^)]+\\)", raw, "$1");
    let v = to_chars(flat.as_str());
    let (a, b) = crate::strs::trim_idx(&v, 0, v.len());
    assert(v@.subrange(0, v@.len() as int) =~= v@);
    to_lower(from_chars(&slice_copy(&v, a, b)).as_str())
}

fn is_suppressed_term(t: &str) -> (r: bool)
    ensures
        r == suppressed_term(t@),
{
    let v = to_chars(t);
    crate::strs::eq_str(&v, "index") || crate::strs::eq_str(&v, "_index") || crate::strs::eq_str(&v, "headings")
        || crate::strs::eq_str(&v, "links") || crate::strs::eq_str(&v, "tags") || crate::strs::eq_str(&v, "fragments")
        || crate::strs::eq_str(&v, "page catalog") || crate::pattern::captures("^page-\\d+$", t).is_some()
}

fn push_occurrence(out: &mut Vec<(String, String, String)>, raw: &str, kind: &str, page: &str)
    ensures
        occs_view(final(out)@) == occs_view(old(out)@) + occurrence(raw@, kind@, page@),
{
    let ghost b = occs_view(out@);
    let t = normalize_term(raw);
    if t.unicode_len() == 0 || is_suppressed_term(t.as_str()) {
        assert(b + Seq::<Occurrence>::empty() =~= b);
        return;
    }
    out.push((t, String::from_str(kind), String::from_str(page)));
    assert(occs_view(out@) =~= b + occurrence(raw@, kind@, page@));
}

fn push_occurrences(out: &mut Vec<(String, String, String)>, raws: &Vec<String>, kind: &str, page: &str)
    ensures
        occs_view(final(out)@) == occs_view(old(out)@) + occurrences_of_list(sv(raws@), kind@, page@, raws@.len() as int),
{
    let ghost b = occs_view(out@);
    let mut k: usize = 0;
    assert(b + occurrences_of_list(sv(raws@), kind@, page@, 0) =~= b);
    while k < raws.len()
        invariant
            k <= raws@.len(),
            occs_view(out@) == b + occurrences_of_list(sv(raws@), kind@, page@, k as int),
        decreases raws@.len() - k,
    {
        assert(sv(raws@)[k as int] == raws@[k as int]@);
        push_occurrence(out, raws[k].as_str(), kind, page);
        assert(occs_view(out@) =~= b + occurrences_of_list(sv(raws@), kind@, page@, k + 1));
        k = k + 1;
    }
}

fn comps_are(cs: &Vec<Vec<char>>, a: &str, b: &str, exact: bool) -> (r: bool)
    ensures
        r == (if exact { vv(cs) == seq![a@, b@] } else { vv(cs).len() >= 2 && vv(cs)[0] == a@ && vv(cs)[1] == b@ }),
{
    if cs.len() < 2 || (exact && cs.len() != 2) {
        proof {
            if exact && vv(cs) == seq![a@, b@] {
                assert(vv(cs).len() == 2);
            }
        }
        return false;
    }
    let r = crate::strs::eq_str(&cs[0], a) && crate::strs::eq_str(&cs[1], b);
    proof {
        if exact {
            if r {
                assert(vv(cs) =~= seq![a@, b@]);
            } else if vv(cs) == seq![a@, b@] {
                assert(vv(cs)[0] == a@ && vv(cs)[1] == b@);
            }
        }
    }
    r
}

fn only_is(cs: &Vec<Vec<char>>, a: &str) -> (r: bool)
    ensures
        r == (vv(cs) == seq![a@]),
{
    if cs.len() != 1 {
        proof {
            if vv(cs) == seq![a@] {
                assert(vv(cs).len() == 1);
            }
        }
        return false;
    }
    let r = crate::strs::eq_str(&cs[0], a);
    proof {
        if r {
            assert(vv(cs) =~= seq![a@]);
        } else if vv(cs) == seq![a@] {
            assert(vv(cs)[0] == a@);
        }
    }
    r
}

fn first_is(cs: &Vec<Vec<char>>, a: &str) -> (r: bool)
    ensures
        r == (vv(cs).len() > 0 && vv(cs)[0] == a@),
{
    cs.len() > 0 && crate::strs::eq_str(&cs[0], a)
}

fn tag_term_exec(rel: &str) -> (r: Option<String>)
    ensures
        crate::link::resolver::opt_str(r) == tag_term_of(rel@),
{
    let cs = crate::paths::components_exec(&to_chars(rel));
    if !first_is(&cs, "tags") || comps_are(&cs, "tags", "index.md", true) {
        return None;
    }
    if cs.len() == 1 {
        return Some(String::new());
    }
    let ghost rest = vv(&cs).skip(1);
    let mut parts: Vec<Vec<char>> = Vec::new();
    let mut i: usize = 1;
    while i < cs.len() - 1
        invariant
            1 <= i <= cs@.len() - 1,
            cs@.len() >= 2,
            rest == vv(&cs).skip(1),
            vv(&parts) == rest.take(i - 1),
        decreases cs@.len() - i,
    {
        let ghost b = vv(&parts);
        parts.push(slice_copy(&cs[i], 0, cs[i].len()));
        assert(cs@[i as int]@.subrange(0, cs@[i as int]@.len() as int) =~= cs@[i as int]@);
        assert(vv(&parts) =~= b.push(cs@[i as int]@));
        assert(rest[i - 1] == cs@[i as int]@);
        assert(vv(&parts) =~= rest.take(i as int));
        i = i + 1;
    }
    let last = cs.len() - 1;
    let ghost b = vv(&parts);
    parts.push(crate::paths::stem_exec(&cs[last]));
    assert(rest.last() == cs@[last as int]@);
    assert(vv(&parts) =~= rest.drop_last().push(stem(rest.last())));
    let sep = ['/'];
    assert(sep@ =~= seq!['/']);
    Some(from_chars(&crate::strs::join_chars(&parts, &sep)))
}

fn suppressed_source_exec(rel: &str) -> (r: bool)
    ensures
        r == suppressed_source(rel@),
{
    let cs = crate::paths::components_exec(&to_chars(rel));
    only_is(&cs, "index.md") || only_is(&cs, "_unresolved.md")
        || crate::strs::eq_str(&crate::paths::file_name_exec(rel), "_index.md") || first_is(&cs, "headings")
        || first_is(&cs, "links") || first_is(&cs, "agent")
}

pub(crate) fn link_labels_exec(body: &str) -> (r: Vec<String>)
    ensures
        sv(r@) == link_labels(body@),
{
    match captures_all("\\[([^\\]\\n]+)\\]\\([^)]+\\)", body) {
        None => {
            let v: Vec<String> = Vec::new();
            assert(sv(v@) =~= Seq::<Seq<char>>::empty());
            v
        },
        Some(all) => {
            let ghost av = all@.map_values(|g: Vec<Option<String>>| groups_view(g@));
            let mut out: Vec<String> = Vec::new();
            let mut k: usize = 0;
            while k < all.len()
                invariant
                    k <= all@.len(),
                    av == all@.map_values(|g: Vec<Option<String>>| groups_view(g@)),
                    sv(out@) == av.take(k as int).map_values(|g: Seq<Option<Seq<char>>>|
                        regex_or_same(link_pattern(), if g.len() > 1 && g[1] is Some { g[1]->0 } else { seq![] }, "$1"@)),
                decreases all@.len() - k,
            {
                let g = &all[k];
                assert(av[k as int] == groups_view(g@));
                let inner: String = if g.len() > 1 {
                    match &g[1] {
                        Some(x) => x.clone(),
                        None => String::new(),
                    }
                } else {
                    String::new()
                };
                let ghost b = sv(out@);
                let ghost gv = av[k as int];
                proof {
                    assert(gv.len() == g@.len());
                    if g@.len() > 1 {
                        assert(gv[1] == match g@[1] { Some(x) => Some(x@), None => None });
                    }
                }
                assert(inner@ == (if gv.len() > 1 && gv[1] is Some { gv[1]->0 } else { Seq::<char>::empty() }));
                let lab = replace_or_same("\\[([^\\]\\n]+)\\]\\([^)]+\\)", inner.as_str(), "$1");
                out.push(lab);
                assert(sv(out@) =~= b.push(lab@));
                assert(sv(out@) =~= av.take(k + 1).map_values(|g: Seq<Option<Seq<char>>>|
                    regex_or_same(link_pattern(), if g.len() > 1 && g[1] is Some { g[1]->0 } else { seq![] }, "$1"@)));
                k = k + 1;
            }
            assert(av.take(k as int) =~= av);
            out
        },
    }
}

pub(crate) fn heading_texts(body: &str) -> (r: Vec<String>)
    ensures
        sv(r@) == crate::notes::headings::headings_of(strip_frontmatter(body@)).map_values(|h: (u8, Seq<char>)| h.1),
{
    let stripped = crate::agent_catalog::strip_frontmatter_text(body);
    let hs = crate::notes::headings::extract(stripped.as_str());
    let ghost hv = crate::notes::headings::headings_view(hs@);
    let mut out: Vec<String> = Vec::new();
    let mut k: usize = 0;
    while k < hs.len()
        invariant
            k <= hs@.len(),
            hv == crate::notes::headings::headings_view(hs@),
            sv(out@) == hv.take(k as int).map_values(|h: (u8, Seq<char>)| h.1),
        decreases hs@.len() - k,
    {
        assert(hv[k as int] == (hs@[k as int].level, hs@[k as int].text@));
        let ghost b = sv(out@);
        out.push(hs[k].text.clone());
        assert(sv(out@) =~= b.push(hs@[k as int].text@));
        assert(sv(out@) =~= hv.take(k + 1).map_values(|h: (u8, Seq<char>)| h.1));
        k = k + 1;
    }
    assert(hv.take(k as int) =~= hv);
    out
}

/// The term occurrences of one generated file: a tag page's tag, else (for
/// a page that is not an index) its headings, title, source file name and link labels.
pub fn file_terms(rel: &str, body: &str, out: &mut Vec<(String, String, String)>)
    ensures
        occs_view(final(out)@) == occs_view(old(out)@) + file_occurrences(rel@, body@),
{
    let ghost b = occs_view(out@);
    let cs = crate::paths::components_exec(&to_chars(rel));
    if comps_are(&cs, "agent", "terms", false) {
        assert(b + Seq::<Occurrence>::empty() =~= b);
        return;
    }
    match tag_term_exec(rel) {
        Some(t) => {
            push_occurrence(out, t.as_str(), "tag", rel);
            return;
        },
        None => {},
    }
    if suppressed_source_exec(rel) {
        assert(b + Seq::<Occurrence>::empty() =~= b);
        return;
    }
    let hs = heading_texts(body);
    push_occurrences(out, &hs, "heading", rel);
    let ghost b1 = occs_view(out@);
    match metadata_value(body, "title") {
        Some(t) => push_occurrence(out, t.as_str(), "title", rel),
        None => {},
    }
    let ghost b2 = occs_view(out@);
    match metadata_value(body, "source") {
        Some(src) => match crate::link::resolver::file_stem_exec(src.as_str()) {
            Some(st) => push_occurrence(out, st.as_str(), "file", rel),
            None => {},
        },
        None => {},
    }
    let ghost b3 = occs_view(out@);
    let labels = link_labels_exec(body);
    push_occurrences(out, &labels, "link_label", rel);
    proof {
        assert(b1 == b + occurrences_of_list(sv(hs@), "heading"@, rel@, hs@.len() as int));
        assert(occs_view(out@) =~= b + file_occurrences(rel@, body@));
    }
}

// ---------------------------------------------------------------------------
// Rows
// ---------------------------------------------------------------------------

pub open spec fn term_rows_view(e: Seq<((String, String), Vec<String>)>) -> Seq<TermRowV> {
    e.map_values(|r: ((String, String), Vec<String>)| ((r.0.0@, r.0.1@), sv(r.1@)))
}

fn key_lt_exec(a: &(String, String), b: &(Vec<char>, Vec<char>)) -> (r: bool)
    ensures
        r == key_lt((a.0@, a.1@), (b.0@, b.1@)),
{
    let a0 = to_chars(a.0.as_str());
    if text_lt_exec(&a0, &b.0) {
        return true;
    }
    crate::strs::chars_eq(&a0, &b.0) && text_lt_exec(&to_chars(a.1.as_str()), &b.1)
}

fn add_path_vec(ps: &mut Vec<String>, x: String)
    ensures
        sv(final(ps)@) == crate::render::tags::add_path(sv(old(ps)@), x@),
{
    crate::render::tags::add_path_pub(ps, x);
}

/// Record an occurrence: the page under its term and kind.
fn add_occurrence_exec(e: &mut Vec<((String, String), Vec<String>)>, term: String, kind: String, page: String)
    ensures
        term_rows_view(final(e)@) == add_occurrence(term_rows_view(old(e)@), (term@, kind@, page@)),
{
    let ghost s = term_rows_view(e@);
    let ghost key = (term@, kind@);
    let kc = (to_chars(term.as_str()), to_chars(kind.as_str()));
    let mut c: usize = 0;
    assert(s.skip(0) =~= s);
    loop
        invariant
            c <= e@.len(),
            s == term_rows_view(e@),
            key == (term@, kind@),
            kc.0@ == term@,
            kc.1@ == kind@,
            row_pos(s, key) == c + row_pos(s.skip(c as int), key),
        ensures
            c <= e@.len(),
            s == term_rows_view(e@),
            row_pos(s, key) == c,
        decreases e@.len() - c,
    {
        let ghost rest = s.skip(c as int);
        if c >= e.len() {
            break;
        }
        assert(rest[0] == s[c as int]);
        assert(s[c as int].0 == (e@[c as int].0.0@, e@[c as int].0.1@));
        assert(rest.drop_first() =~= s.skip(c + 1));
        if !key_lt_exec(&e[c].0, &kc) {
            break;
        }
        c = c + 1;
    }
    if c < e.len() && crate::strs::chars_eq(&to_chars(e[c].0.0.as_str()), &kc.0)
        && crate::strs::chars_eq(&to_chars(e[c].0.1.as_str()), &kc.1) {
        assert(s[c as int].0 == key);
        let mut row = e.remove(c);
        let ghost before = sv(row.1@);
        assert(before == s[c as int].1);
        add_path_vec(&mut row.1, page);
        e.insert(c, row);
        assert(term_rows_view(e@) =~= s.update(c as int, (key, crate::render::tags::add_path(s[c as int].1, page@))));
        return;
    }
    proof {
        if c < e@.len() {
            assert(s[c as int].0 == (e@[c as int].0.0@, e@[c as int].0.1@));
        }
    }
    let ghost pv = page@;
    let mut one: Vec<String> = Vec::new();
    one.push(page);
    assert(sv(one@) =~= seq![pv]);
    e.insert(c, ((term, kind), one));
    assert(term_rows_view(e@) =~= s.take(c as int) + seq![(key, seq![pv])] + s.skip(c as int));
}

/// The term rows of generated files (path and text each, in path order).
pub fn term_rows(files: &[(String, String)]) -> (r: Vec<((String, String), Vec<String>)>)
    ensures
        term_rows_view(r@) == rows_of(files_occurrences(files_view(files@), files@.len() as int)),
{
    let mut occs: Vec<(String, String, String)> = Vec::new();
    let mut i: usize = 0;
    assert(occs_view(occs@) =~= files_occurrences(files_view(files@), 0));
    while i < files.len()
        invariant
            i <= files@.len(),
            occs_view(occs@) == files_occurrences(files_view(files@), i as int),
        decreases files@.len() - i,
    {
        assert(files_view(files@)[i as int] == (files@[i as int].0@, files@[i as int].1@));
        file_terms(files[i].0.as_str(), files[i].1.as_str(), &mut occs);
        i = i + 1;
    }
    let ghost ov = occs_view(occs@);
    let mut rows: Vec<((String, String), Vec<String>)> = Vec::new();
    let mut k: usize = 0;
    assert(term_rows_view(rows@) =~= rows_of(ov.take(0)));
    while k < occs.len()
        invariant
            k <= occs@.len(),
            ov == occs_view(occs@),
            term_rows_view(rows@) == rows_of(ov.take(k as int)),
        decreases occs@.len() - k,
    {
        let o = &occs[k];
        assert(ov[k as int] == (o.0@, o.1@, o.2@));
        add_occurrence_exec(&mut rows, o.0.clone(), o.1.clone(), o.2.clone());
        assert(ov.take(k + 1).drop_last() =~= ov.take(k as int));
        k = k + 1;
    }
    assert(ov.take(k as int) =~= ov);
    rows
}

// ---------------------------------------------------------------------------
// Pages of the term index
// ---------------------------------------------------------------------------

/// At most this many page links per term.
pub open spec fn max_links() -> nat {
    20
}

pub open spec fn page_link(p: Seq<char>) -> Seq<char> {
    "["@ + p + "](../../"@ + p + ")"@
}

/// The page links of a term: the first pages, then how many more there are.
pub open spec fn term_links(ps: Seq<Seq<char>>) -> Seq<char> {
    let shown = if ps.len() > max_links() { ps.take(max_links() as int) } else { ps };
    let links = join(shown.map_values(|p: Seq<char>| page_link(p)), ", "@);
    let rem = if ps.len() > max_links() { ps.len() - max_links() } else { 0 };
    if rem > 0 {
        links + (if links.len() > 0 { ", "@ } else { seq![] }) + "... "@ + decimal(rem as nat)
            + " more; see [Page Catalog](../pages/index.md)"@
    } else {
        links
    }
}

pub open spec fn term_line(r: TermRowV) -> Seq<char> {
    "| "@ + cell(r.0.0) + " | `"@ + cell(r.0.1) + "` | "@ + term_links(r.1) + " |\n"@
}

pub open spec fn term_header() -> Seq<char> {
    "| term | kind | pages |\n|---|---|---|\n"@
}

pub open spec fn term_lines(rows: Seq<TermRowV>, k: int) -> Seq<char>
    decreases k,
{
    if k <= 0 {
        seq![]
    } else {
        term_lines(rows, k - 1) + term_line(rows[k - 1])
    }
}

pub open spec fn term_table(rows: Seq<TermRowV>) -> Seq<char> {
    term_header() + term_lines(rows, rows.len() as int)
}

/// Rows cut into pages as the page catalog is.
pub open spec fn term_paginate_fold(rows: Seq<TermRowV>, k: int) -> (Seq<Seq<TermRowV>>, Seq<TermRowV>, nat)
    decreases k,
{
    if k <= 0 {
        (seq![], seq![], term_header().len())
    } else {
        let (ps, cur, n) = term_paginate_fold(rows, k - 1);
        let l = term_line(rows[k - 1]).len();
        if cur.len() > 0 && n + l > 30000 {
            (ps.push(cur), seq![rows[k - 1]], term_header().len() + l)
        } else {
            (ps, cur.push(rows[k - 1]), n + l)
        }
    }
}

pub open spec fn term_pages(rows: Seq<TermRowV>) -> Seq<Seq<TermRowV>> {
    let (ps, cur, _) = term_paginate_fold(rows, rows.len() as int);
    if cur.len() > 0 { ps.push(cur) } else { ps }
}

/// All rows of some term pages, in order.
pub open spec fn flatten_term_rows(ps: Seq<Seq<TermRowV>>) -> Seq<TermRowV>
    decreases ps.len(),
{
    if ps.len() == 0 {
        seq![]
    } else {
        flatten_term_rows(ps.drop_last()) + ps.last()
    }
}

proof fn lemma_term_paginate_fold(rows: Seq<TermRowV>, k: int)
    requires
        0 <= k <= rows.len(),
    ensures
        flatten_term_rows(term_paginate_fold(rows, k).0) + term_paginate_fold(rows, k).1 == rows.take(k),
        forall|j: int| 0 <= j < term_paginate_fold(rows, k).0.len() ==> #[trigger] term_paginate_fold(rows, k).0[j].len() > 0,
    decreases k,
{
    if k > 0 {
        lemma_term_paginate_fold(rows, k - 1);
        let (ps, cur, n) = term_paginate_fold(rows, k - 1);
        let l = term_line(rows[k - 1]).len();
        assert(rows.take(k) =~= rows.take(k - 1).push(rows[k - 1]));
        if cur.len() > 0 && n + l > 30000 {
            assert(ps.push(cur).drop_last() =~= ps);
            assert(flatten_term_rows(ps.push(cur)) == flatten_term_rows(ps) + cur);
            assert(flatten_term_rows(ps.push(cur)) + seq![rows[k - 1]] =~= rows.take(k));
        } else {
            assert(flatten_term_rows(ps) + cur.push(rows[k - 1]) =~= rows.take(k));
        }
    }
}

/// Law: cutting the term rows into pages loses, repeats and reorders none
/// of them, and leaves no page empty.
pub proof fn lemma_term_pages_keep_rows(rows: Seq<TermRowV>)
    ensures
        flatten_term_rows(term_pages(rows)) == rows,
        forall|j: int| 0 <= j < term_pages(rows).len() ==> #[trigger] term_pages(rows)[j].len() > 0,
{
    lemma_term_paginate_fold(rows, rows.len() as int);
    let (ps, cur, n) = term_paginate_fold(rows, rows.len() as int);
    assert(rows.take(rows.len() as int) =~= rows);
    if cur.len() > 0 {
        assert(ps.push(cur).drop_last() =~= ps);
    } else {
        assert(flatten_term_rows(ps) + cur =~= flatten_term_rows(ps));
    }
}

pub open spec fn child_lines(names: Seq<Seq<char>>, k: int) -> Seq<char>
    decreases k,
{
    if k <= 0 {
        seq![]
    } else {
        child_lines(names, k - 1) + "- ["@ + names[k - 1] + "]("@ + names[k - 1] + ")\n"@
    }
}

pub open spec fn term_page_file(i: int, n: int, rows: Seq<TermRowV>) -> (Seq<char>, Seq<char>) {
    let name = catalog_page_name((i + 1) as nat);
    let title = "Term Index "@ + decimal((i + 1) as nat);
    let body = "# "@ + title + "\n\n"@ + term_table(rows);
    let meta = catalog_meta(
        "term_index"@, "agent/terms/"@ + name, title, None, seq!["agent"@, "terms"@], body.len() as usize,
        Some("index.md"@), if i > 0 { Some(catalog_page_name(i as nat)) } else { None },
        if i + 1 < n { Some(catalog_page_name((i + 2) as nat)) } else { None }, seq![], seq![],
    );
    ("agent/terms/"@ + name, frontmatter_text(meta) + body)
}

/// The files of the term index for these rows.
pub open spec fn term_files(rows: Seq<TermRowV>) -> Seq<(Seq<char>, Seq<char>)> {
    let pages = term_pages(rows);
    let children = crate::agent_catalog::page_children(pages.len());
    let body = "# Term Index\n\n"@ + if children.len() == 0 { term_table(rows) } else { child_lines(children, children.len() as int) };
    let meta = catalog_meta(
        "term_index"@, "agent/terms/index.md"@, "Term Index"@, None, seq!["agent"@, "terms"@], body.len() as usize,
        Some("../index.md"@), None, None, children, seq![],
    );
    let index = ("agent/terms/index.md"@, frontmatter_text(meta) + body);
    if children.len() == 0 {
        seq![index]
    } else {
        seq![index] + Seq::new(pages.len(), |i: int| term_page_file(i, pages.len() as int, pages[i]))
    }
}

/// The files of the term index of generated files (path and text each, in path order).
pub open spec fn term_index_files(files: Seq<(Seq<char>, Seq<char>)>) -> Seq<(Seq<char>, Seq<char>)> {
    term_files(rows_of(files_occurrences(files, files.len() as int)))
}

/// A term that may be listed: a normalized raw term (link markup
/// flattened, trimmed, lower case) that is not empty and does not name the
/// wiki's own structure.
pub open spec fn listable(t: Seq<char>) -> bool {
    t.len() > 0 && !suppressed_term(t) && exists|raw: Seq<char>| t == #[trigger] normalized_term(raw)
}

pub open spec fn all_listable(os: Seq<Occurrence>) -> bool {
    forall|i: int| 0 <= i < os.len() ==> listable(#[trigger] os[i].0)
}

proof fn lemma_occurrence_listable(raw: Seq<char>, kind: Seq<char>, page: Seq<char>)
    ensures
        all_listable(occurrence(raw, kind, page)),
{
    let t = normalized_term(raw);
    if !(t.len() == 0 || suppressed_term(t)) {
        assert(occurrence(raw, kind, page)[0].0 == normalized_term(raw));
    }
}

proof fn lemma_concat_listable(a: Seq<Occurrence>, b: Seq<Occurrence>)
    requires
        all_listable(a),
        all_listable(b),
    ensures
        all_listable(a + b),
{
    assert forall|i: int| 0 <= i < (a + b).len() implies listable(#[trigger] (a + b)[i].0) by {
        if i < a.len() {
            assert((a + b)[i] == a[i]);
        } else {
            assert((a + b)[i] == b[i - a.len()]);
        }
    }
}

proof fn lemma_list_listable(raws: Seq<Seq<char>>, kind: Seq<char>, page: Seq<char>, k: int)
    ensures
        all_listable(occurrences_of_list(raws, kind, page, k)),
    decreases k,
{
    if k > 0 {
        lemma_list_listable(raws, kind, page, k - 1);
        lemma_occurrence_listable(raws[k - 1], kind, page);
        lemma_concat_listable(occurrences_of_list(raws, kind, page, k - 1), occurrence(raws[k - 1], kind, page));
    }
}

proof fn lemma_file_listable(rel: Seq<char>, body: Seq<char>)
    ensures
        all_listable(file_occurrences(rel, body)),
{
    if !under_agent_terms(rel) {
        match tag_term_of(rel) {
            Some(t) => lemma_occurrence_listable(t, "tag"@, rel),
            None => if !suppressed_source(rel) {
                let hs = crate::notes::headings::headings_of(strip_frontmatter(body)).map_values(|h: (u8, Seq<char>)| h.1);
                lemma_list_listable(hs, "heading"@, rel, hs.len() as int);
                let a = occurrences_of_list(hs, "heading"@, rel, hs.len() as int);
                let b = match metadata_value_of(body, "title"@) { Some(t) => occurrence(t, "title"@, rel), None => seq![] };
                match metadata_value_of(body, "title"@) {
                    Some(t) => lemma_occurrence_listable(t, "title"@, rel),
                    None => {},
                }
                let c = match metadata_value_of(body, "source"@) {
                    Some(src) => match crate::link::resolver::file_stem(src) {
                        Some(st) => occurrence(st, "file"@, rel),
                        None => seq![],
                    },
                    None => seq![],
                };
                match metadata_value_of(body, "source"@) {
                    Some(src) => match crate::link::resolver::file_stem(src) {
                        Some(st) => lemma_occurrence_listable(st, "file"@, rel),
                        None => {},
                    },
                    None => {},
                }
                let ll = link_labels(body);
                lemma_list_listable(ll, "link_label"@, rel, ll.len() as int);
                let d = occurrences_of_list(ll, "link_label"@, rel, ll.len() as int);
                lemma_concat_listable(a, b);
                lemma_concat_listable(a + b, c);
                lemma_concat_listable(a + b + c, d);
            },
        }
    }
}

proof fn lemma_files_listable(files: Seq<(Seq<char>, Seq<char>)>, k: int)
    ensures
        all_listable(files_occurrences(files, k)),
    decreases k,
{
    if k > 0 {
        lemma_files_listable(files, k - 1);
        lemma_file_listable(files[k - 1].0, files[k - 1].1);
        lemma_concat_listable(files_occurrences(files, k - 1), file_occurrences(files[k - 1].0, files[k - 1].1));
    }
}

proof fn lemma_rows_listable(os: Seq<Occurrence>)
    requires
        all_listable(os),
    ensures
        forall|i: int| 0 <= i < rows_of(os).len() ==> listable((#[trigger] rows_of(os)[i]).0.0),
    decreases os.len(),
{
    if os.len() > 0 {
        let prev = os.drop_last();
        assert(all_listable(prev)) by {
            assert forall|i: int| 0 <= i < prev.len() implies listable(#[trigger] prev[i].0) by {
                assert(prev[i] == os[i]);
            }
        }
        lemma_rows_listable(prev);
        let e = rows_of(prev);
        let o = os.last();
        assert(listable(os[os.len() - 1].0));
        let key = (o.0, o.1);
        let c = row_pos(e, key);
        lemma_row_pos_bound(e, key);
        let r = rows_of(os);
        assert(r == add_occurrence(e, o));
        if c < e.len() && e[c].0 == key {
            assert forall|i: int| 0 <= i < r.len() implies listable((#[trigger] r[i]).0.0) by {
                if i != c {
                    assert(r[i] == e[i]);
                }
            }
        } else {
            assert forall|i: int| 0 <= i < r.len() implies listable((#[trigger] r[i]).0.0) by {
                if i < c {
                    assert(r[i] == e[i]);
                } else if i > c {
                    assert(r[i] == e[i - 1]);
                }
            }
        }
    }
}

proof fn lemma_row_pos_bound(e: Seq<TermRowV>, key: (Seq<char>, Seq<char>))
    ensures
        0 <= row_pos(e, key) <= e.len(),
    decreases e.len(),
{
    if e.len() > 0 && key_lt(e[0].0, key) {
        lemma_row_pos_bound(e.drop_first(), key);
    }
}

/// Law: every term the term index lists is a normalized term (link markup
/// flattened, trimmed, lower case) that is not empty and does not name the
/// wiki's own structure (`index`, `_index`, `headings`, `links`, `tags`,
/// `fragments`, `page catalog`, `page-N`).
pub proof fn lemma_terms_listable(files: Seq<(Seq<char>, Seq<char>)>)
    ensures
        forall|i: int| 0 <= i < rows_of(files_occurrences(files, files.len() as int)).len() ==>
            listable((#[trigger] rows_of(files_occurrences(files, files.len() as int))[i]).0.0),
{
    lemma_files_listable(files, files.len() as int);
    lemma_rows_listable(files_occurrences(files, files.len() as int));
}

fn term_links_exec(ps: &Vec<String>) -> (r: Vec<char>)
    ensures
        r@ == term_links(sv(ps@)),
{
    let ghost pv = sv(ps@);
    let n = if ps.len() > 20 { 20 } else { ps.len() };
    let ghost shown = if pv.len() > 20 { pv.take(20) } else { pv };
    let ghost mapped = shown.map_values(|p: Seq<char>| page_link(p));
    let mut links: Vec<char> = Vec::new();
    let mut k: usize = 0;
    assert(shown.len() == n);
    while k < n
        invariant
            k <= n,
            n <= ps@.len(),
            pv == sv(ps@),
            shown.len() == n,
            forall|j: int| 0 <= j < n ==> #[trigger] shown[j] == pv[j],
            mapped == shown.map_values(|p: Seq<char>| page_link(p)),
            links@ == join(mapped.take(k as int), ", "@),
        decreases n - k,
    {
        assert(shown[k as int] == ps@[k as int]@);
        let mut one: Vec<char> = Vec::new();
        push_str(&mut one, "[");
        push_str(&mut one, ps[k].as_str());
        push_str(&mut one, "](../../");
        push_str(&mut one, ps[k].as_str());
        push_str(&mut one, ")");
        assert(one@ == mapped[k as int]);
        if k > 0 {
            push_str(&mut links, ", ");
        }
        push_all(&mut links, &one);
        proof {
            let m = mapped.take(k + 1);
            assert(m.drop_last() =~= mapped.take(k as int));
            if k == 0 {
                assert(m =~= seq![mapped[0]]);
                assert(links@ =~= mapped[0]);
            } else {
                assert(links@ =~= join(m.drop_last(), ", "@) + ", "@ + m.last());
            }
        }
        k = k + 1;
    }
    assert(mapped.take(k as int) =~= mapped);
    if ps.len() > 20 {
        let rem = ps.len() - 20;
        if links.len() > 0 {
            push_str(&mut links, ", ");
        }
        push_str(&mut links, "... ");
        push_all(&mut links, &decimal_chars(rem));
        push_str(&mut links, " more; see [Page Catalog](../pages/index.md)");
    }
    links
}

fn term_line_exec(r: &((String, String), Vec<String>)) -> (l: Vec<char>)
    ensures
        l@ == term_line(((r.0.0@, r.0.1@), sv(r.1@))),
{
    let mut out: Vec<char> = Vec::new();
    push_str(&mut out, "| ");
    push_cell(&mut out, r.0.0.as_str());
    push_str(&mut out, " | `");
    push_cell(&mut out, r.0.1.as_str());
    push_str(&mut out, "` | ");
    push_all(&mut out, &term_links_exec(&r.1));
    push_str(&mut out, " |\n");
    out
}

fn term_table_exec(rows: &Vec<((String, String), Vec<String>)>) -> (t: Vec<char>)
    ensures
        t@ == term_table(term_rows_view(rows@)),
{
    let ghost rv = term_rows_view(rows@);
    let mut out: Vec<char> = Vec::new();
    push_str(&mut out, "| term | kind | pages |\n|---|---|---|\n");
    let ghost h = out@;
    let mut k: usize = 0;
    while k < rows.len()
        invariant
            k <= rows@.len(),
            rv == term_rows_view(rows@),
            out@ == h + term_lines(rv, k as int),
        decreases rows@.len() - k,
    {
        assert(rv[k as int] == ((rows@[k as int].0.0@, rows@[k as int].0.1@), sv(rows@[k as int].1@)));
        push_all(&mut out, &term_line_exec(&rows[k]));
        assert(out@ =~= h + term_lines(rv, k + 1));
        k = k + 1;
    }
    out
}

fn copy_term_row(r: &((String, String), Vec<String>)) -> (c: ((String, String), Vec<String>))
    ensures
        ((c.0.0@, c.0.1@), sv(c.1@)) == ((r.0.0@, r.0.1@), sv(r.1@)),
{
    let mut ps: Vec<String> = Vec::new();
    let mut k: usize = 0;
    while k < r.1.len()
        invariant
            k <= r.1@.len(),
            sv(ps@) == sv(r.1@).take(k as int),
        decreases r.1@.len() - k,
    {
        let ghost b = sv(ps@);
        ps.push(r.1[k].clone());
        assert(sv(ps@) =~= b.push(r.1@[k as int]@));
        assert(sv(ps@) =~= sv(r.1@).take(k + 1));
        k = k + 1;
    }
    assert(sv(r.1@).take(k as int) =~= sv(r.1@));
    ((r.0.0.clone(), r.0.1.clone()), ps)
}

fn push_term_row(v: &mut Vec<((String, String), Vec<String>)>, r: ((String, String), Vec<String>))
    ensures
        term_rows_view(final(v)@) == term_rows_view(old(v)@).push(((r.0.0@, r.0.1@), sv(r.1@))),
        final(v)@.len() == old(v)@.len() + 1,
{
    let ghost b = term_rows_view(v@);
    v.push(r);
    assert(term_rows_view(v@) =~= b.push(((v@[v@.len() - 1].0.0@, v@[v@.len() - 1].0.1@), sv(v@[v@.len() - 1].1@))));
}

fn paginate_term_rows(rows: &Vec<((String, String), Vec<String>)>) -> (r: Vec<Vec<((String, String), Vec<String>)>>)
    ensures
        r@.len() == term_pages(term_rows_view(rows@)).len(),
        forall|j: int| 0 <= j < r@.len() ==> term_rows_view(#[trigger] r@[j]@) == term_pages(term_rows_view(rows@))[j],
{
    let ghost rv = term_rows_view(rows@);
    let mut pages: Vec<Vec<((String, String), Vec<String>)>> = Vec::new();
    let mut cur: Vec<((String, String), Vec<String>)> = Vec::new();
    let hl = to_chars("| term | kind | pages |\n|---|---|---|\n").len();
    let mut n: u128 = hl as u128;
    let mut k: usize = 0;
    while k < rows.len()
        invariant
            k <= rows@.len(),
            rv == term_rows_view(rows@),
            hl == term_header().len(),
            cur@.len() == 0 ==> n == hl,
            n <= hl + 30000 + usize::MAX,
            pages@.len() == term_paginate_fold(rv, k as int).0.len(),
            forall|j: int| 0 <= j < pages@.len() ==> term_rows_view(#[trigger] pages@[j]@) == term_paginate_fold(rv, k as int).0[j],
            term_rows_view(cur@) == term_paginate_fold(rv, k as int).1,
            n as nat == term_paginate_fold(rv, k as int).2,
        decreases rows@.len() - k,
    {
        assert(rv[k as int] == ((rows@[k as int].0.0@, rows@[k as int].0.1@), sv(rows@[k as int].1@)));
        let l = term_line_exec(&rows[k]).len();
        let ghost ps0 = term_paginate_fold(rv, k as int).0;
        if cur.len() > 0 && n + (l as u128) > 30000 {
            let mut fresh: Vec<((String, String), Vec<String>)> = Vec::new();
            std::mem::swap(&mut fresh, &mut cur);
            pages.push(fresh);
            push_term_row(&mut cur, copy_term_row(&rows[k]));
            assert(term_rows_view(cur@) =~= seq![rv[k as int]]);
            n = (hl as u128) + (l as u128);
            assert forall|j: int| 0 <= j < pages@.len() implies term_rows_view(#[trigger] pages@[j]@) == term_paginate_fold(rv, k + 1).0[j] by {
                if j < ps0.len() {
                }
            }
        } else {
            push_term_row(&mut cur, copy_term_row(&rows[k]));
            n = n + (l as u128);
        }
        k = k + 1;
    }
    if cur.len() > 0 {
        pages.push(cur);
    }
    pages
}

fn child_names(n: usize) -> (r: Vec<String>)
    ensures
        sv(r@) == crate::agent_catalog::page_children(n as nat),
{
    let mut children: Vec<String> = Vec::new();
    if n > 1 {
        let mut i: usize = 0;
        while i < n
            invariant
                i <= n,
                sv(children@) == Seq::new(i as nat, |j: int| catalog_page_name((j + 1) as nat)),
            decreases n - i,
        {
            let nm = catalog_page_name_exec(i + 1);
            let ghost b = sv(children@);
            children.push(nm);
            assert(sv(children@) =~= b.push(catalog_page_name((i + 1) as nat)));
            assert(sv(children@) =~= Seq::new((i + 1) as nat, |j: int| catalog_page_name((j + 1) as nat)));
            i = i + 1;
        }
    }
    assert(sv(children@) =~= crate::agent_catalog::page_children(n as nat));
    children
}

fn term_page_file_exec(i: usize, n: usize, page: &Vec<((String, String), Vec<String>)>, files: &mut Vec<(String, String)>)
    requires
        i < n,
    ensures
        files_view(final(files)@) == files_view(old(files)@).push(term_page_file(i as int, n as int, term_rows_view(page@))),
{
    let name = catalog_page_name_exec(i + 1);
    let mut title = String::from_str("Term Index ");
    title.append(from_chars(&decimal_chars(i + 1)).as_str());
    let mut body: Vec<char> = Vec::new();
    push_str(&mut body, "# ");
    push_str(&mut body, title.as_str());
    push_str(&mut body, "\n\n");
    push_all(&mut body, &term_table_exec(page));
    let mut rel = String::from_str("agent/terms/");
    rel.append(name.as_str());
    let prev = if i > 0 { Some(catalog_page_name_exec(i)) } else { None };
    let next = if i + 1 < n { Some(catalog_page_name_exec(i + 2)) } else { None };
    let chars = body.len();
    let meta = catalog_meta_exec(
        "term_index", rel.clone(), title, None, strings2("agent", "terms"), chars, Some(String::from_str("index.md")), prev,
        next, no_strings(), no_strings(),
    );
    let mut text = to_chars(render_frontmatter(&meta).as_str());
    push_all(&mut text, &body);
    file_push(files, rel, from_chars(&text));
}

/// The files of the term index: every listed word (tag, heading, title,
/// source file name, link label) with the pages it occurs on, in term order,
/// paginated when large. `files` are the generated files (path and text
/// each) in path order.
pub fn term_index(files: &[(String, String)]) -> (r: Vec<(String, String)>)
    ensures
        files_view(r@) == term_index_files(files_view(files@)),
{
    let rows = term_rows(files);
    let ghost rv = term_rows_view(rows@);
    let pages = paginate_term_rows(&rows);
    let ghost pv = term_pages(rv);
    let n = pages.len();
    let children = child_names(n);
    let mut body: Vec<char> = Vec::new();
    push_str(&mut body, "# Term Index\n\n");
    if children.len() == 0 {
        push_all(&mut body, &term_table_exec(&rows));
    } else {
        let ghost h = body@;
        let ghost cv = sv(children@);
        let mut i: usize = 0;
        while i < children.len()
            invariant
                i <= children@.len(),
                cv == sv(children@),
                body@ == h + child_lines(cv, i as int),
            decreases children@.len() - i,
        {
            assert(cv[i as int] == children@[i as int]@);
            push_str(&mut body, "- [");
            push_str(&mut body, children[i].as_str());
            push_str(&mut body, "](");
            push_str(&mut body, children[i].as_str());
            push_str(&mut body, ")\n");
            assert(body@ =~= h + child_lines(cv, i + 1));
            i = i + 1;
        }
    }
    let chars = body.len();
    let meta = catalog_meta_exec(
        "term_index", String::from_str("agent/terms/index.md"), String::from_str("Term Index"), None,
        strings2("agent", "terms"), chars, Some(String::from_str("../index.md")), None, None, children, no_strings(),
    );
    let mut text = to_chars(render_frontmatter(&meta).as_str());
    push_all(&mut text, &body);
    let mut out: Vec<(String, String)> = Vec::new();
    file_push(&mut out, String::from_str("agent/terms/index.md"), from_chars(&text));
    if n <= 1 {
        assert(files_view(out@) =~= term_index_files(files_view(files@)));
        return out;
    }
    let ghost f1 = files_view(out@);
    let mut i: usize = 0;
    while i < n
        invariant
            i <= n,
            n == pages@.len(),
            n > 1,
            pages@.len() == pv.len(),
            forall|j: int| 0 <= j < pages@.len() ==> term_rows_view(#[trigger] pages@[j]@) == pv[j],
            files_view(out@) == f1 + Seq::new(i as nat, |j: int| term_page_file(j, n as int, pv[j])),
        decreases n - i,
    {
        assert(term_rows_view(pages@[i as int]@) == pv[i as int]);
        term_page_file_exec(i, n, &pages[i], &mut out);
        assert(files_view(out@) =~= f1 + Seq::new((i + 1) as nat, |j: int| term_page_file(j, n as int, pv[j])));
        i = i + 1;
    }
    assert(files_view(out@) =~= term_index_files(files_view(files@)));
    out
}

} // verus!
