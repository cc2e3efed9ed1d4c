//! Context packs: the evidence that a recipe's sections ask for, drawn from
//! the catalog's pages, with a source trail, cut down to a budget.
use vstd::prelude::*;
use crate::budget::{budgeted, enforce_budget};
use crate::num::{decimal, decimal_chars};
use crate::order::{lemma_text_lt_irrefl, lemma_text_lt_total, lemma_text_lt_trans, text_lt, text_lt_exec};
use crate::schema::{CatalogPage, ContextRecipe, ContextSection, FieldEvidence};
use crate::strs::{from_chars, is_ws, is_ws_exec, ltrim, ltrim_idx, push_all, slice_copy, sv, to_chars};

verus! {

// ---------------------------------------------------------------------------
// One-line evidence
// ---------------------------------------------------------------------------

/// Number of leading characters that are not white space.
pub open spec fn word_len(s: Seq<char>) -> nat
    decreases s.len(),
{
    if s.len() > 0 && !is_ws(s[0]) {
        1 + word_len(s.drop_first())
    } else {
        0
    }
}

pub proof fn lemma_word_len(s: Seq<char>)
    ensures
        word_len(s) <= s.len(),
        forall|k: int| 0 <= k < word_len(s) ==> !is_ws(#[trigger] s[k]),
        word_len(s) < s.len() ==> is_ws(s[word_len(s) as int]),
    decreases s.len(),
{
    if s.len() > 0 && !is_ws(s[0]) {
        lemma_word_len(s.drop_first());
        assert forall|k: int| 0 <= k < word_len(s) implies !is_ws(#[trigger] s[k]) by {
            if k > 0 {
                assert(s[k] == s.drop_first()[k - 1]);
            }
        }
    }
}

pub proof fn lemma_ltrim_len(s: Seq<char>)
    ensures
        ltrim(s).len() <= s.len(),
        ltrim(s).len() > 0 ==> !is_ws(ltrim(s)[0]),
        ltrim(ltrim(s)) == ltrim(s),
    decreases s.len(),
{
    if s.len() > 0 && is_ws(s[0]) {
        lemma_ltrim_len(s.drop_first());
    }
}

/// `split_whitespace` joined with single spaces.
pub open spec fn squash(s: Seq<char>) -> Seq<char>
    decreases s.len(),
{
    let t = ltrim(s);
    if t.len() == 0 {
        seq![]
    } else {
        let n = word_len(t);
        let rest = t.skip(n as int);
        proof {
            lemma_ltrim_len(s);
            lemma_word_len(t);
        }
        if ltrim(rest).len() == 0 {
            t.take(n as int)
        } else {
            t.take(n as int) + " "@ + squash(rest)
        }
    }
}

/// The evidence text on one line: white space collapsed, and cut to 217
/// characters and `...` when longer than 220.
pub open spec fn compact(s: Seq<char>) -> Seq<char> {
    let o = squash(s);
    if o.len() > 220 {
        o.take(217) + "..."@
    } else {
        o
    }
}

/// The text on one line, at most 220 characters.
pub fn compact_line(text: &str) -> (r: String)
    ensures
        r@ == compact(text@),
{
    let v = to_chars(text);
    let n = v.len();
    let mut out: Vec<char> = Vec::new();
    let mut i = ltrim_idx(&v, 0, n);
    assert(v@.subrange(0, n as int) =~= v@);
    proof {
        lemma_ltrim_len(v@);
    }
    while i < n
        invariant
            n == v@.len(),
            i <= n,
            ltrim(v@.subrange(i as int, n as int)) == v@.subrange(i as int, n as int),
            squash(v@) == out@ + squash(v@.subrange(i as int, n as int)),
        decreases n - i,
    {
        let ghost t = v@.subrange(i as int, n as int);
        proof {
            lemma_word_len(t);
            lemma_ltrim_len(t);
        }
        let mut j = i;
        while j < n && !is_ws_exec(v[j])
            invariant
                i <= j <= n,
                n == v@.len(),
                t == v@.subrange(i as int, n as int),
                word_len(t) == (j - i) + word_len(v@.subrange(j as int, n as int)),
            decreases n - j,
        {
            assert(v@.subrange(j as int, n as int).drop_first() =~= v@.subrange(j + 1, n as int));
            j = j + 1;
        }
        proof {
            if j < n {
                assert(v@.subrange(j as int, n as int)[0] == v@[j as int]);
            }
        }
        assert(j > i) by {
            assert(t[0] == v@[i as int]);
        }
        push_all(&mut out, &slice_copy(&v, i, j));
        let ghost rest = v@.subrange(j as int, n as int);
        assert(t.skip(j - i) =~= rest);
        assert(t.take(j - i) =~= v@.subrange(i as int, j as int));
        let k = ltrim_idx(&v, j, n);
        proof {
            lemma_ltrim_len(rest);
        }
        assert(word_len(v@.subrange(j as int, n as int)) == 0);
        assert(word_len(t) == j - i);
        assert(ltrim(rest) == v@.subrange(k as int, n as int));
        let ghost before = out@;
        if k < n {
            out.push(' ');
            assert(squash(rest) == squash(v@.subrange(k as int, n as int)));
            assert(squash(t) == t.take(j - i) + " "@ + squash(rest));
            assert(out@ =~= before + " "@) by {
                reveal_strlit(" ");
            }
        } else {
            assert(squash(t) == t.take(j - i));
            assert(v@.subrange(k as int, n as int) =~= Seq::<char>::empty());
        }
        i = k;
    }
    let limit: usize = 220;
    if out.len() > limit {
        let mut cut = slice_copy(&out, 0, 217);
        push_all(&mut cut, &to_chars("..."));
        assert(out@.subrange(0, 217) =~= out@.take(217));
        return from_chars(&cut);
    }
    from_chars(&out)
}

// ---------------------------------------------------------------------------
// Sorted, without repeats
// ---------------------------------------------------------------------------

/// Strictly increasing in text order.
pub open spec fn texts_strict(s: Seq<Seq<char>>) -> bool {
    forall|i: int, j: int| 0 <= i < j < s.len() ==> text_lt(#[trigger] s[i], #[trigger] s[j])
}

/// Number of leading texts below `x`.
pub open spec fn text_pos(s: Seq<Seq<char>>, x: Seq<char>) -> int
    decreases s.len(),
{
    if s.len() > 0 && text_lt(s[0], x) {
        1 + text_pos(s.drop_first(), x)
    } else {
        0
    }
}

/// `x` put in its place among the sorted texts `s`, unless it is there.
pub open spec fn insert_text(s: Seq<Seq<char>>, x: Seq<char>) -> Seq<Seq<char>> {
    let c = text_pos(s, x);
    if c < s.len() && s[c] == x {
        s
    } else {
        s.take(c) + seq![x] + s.skip(c)
    }
}

proof fn lemma_text_pos(s: Seq<Seq<char>>, t: Seq<char>)
    ensures
        0 <= text_pos(s, t) <= s.len(),
        forall|k: int| 0 <= k < text_pos(s, t) ==> text_lt(#[trigger] s[k], t),
        text_pos(s, t) < s.len() ==> !text_lt(s[text_pos(s, t)], t),
    decreases s.len(),
{
    if s.len() > 0 && text_lt(s[0], t) {
        lemma_text_pos(s.drop_first(), t);
        assert forall|k: int| 0 <= k < text_pos(s, t) implies text_lt(#[trigger] s[k], t) by {
            if k > 0 {
                assert(s[k] == s.drop_first()[k - 1]);
            }
        }
    }
}

proof fn lemma_insert_text(s: Seq<Seq<char>>, x: Seq<char>)
    requires
        texts_strict(s),
    ensures
        texts_strict(insert_text(s, x)),
        insert_text(s, x).to_set() == s.to_set().insert(x),
{
    lemma_text_pos(s, x);
    let c = text_pos(s, x);
    let r = insert_text(s, x);
    if c < s.len() && s[c] == x {
        assert(s.to_set().insert(x) =~= s.to_set());
        return;
    }
    assert forall|i: int, j: int| 0 <= i < j < r.len() implies text_lt(#[trigger] r[i], #[trigger] r[j]) by {
        if j < c {
            assert(r[i] == s[i] && r[j] == s[j]);
        } else if j == c {
            assert(r[i] == s[i]);
        } else if i < c {
            assert(r[i] == s[i] && r[j] == s[j - 1]);
            lemma_text_lt_total(s[c], x);
            lemma_text_lt_trans(s[i], x, s[c]);
            if j - 1 > c {
                lemma_text_lt_trans(s[i], s[c], s[j - 1]);
            }
        } else if i == c {
            assert(r[j] == s[j - 1]);
            lemma_text_lt_total(s[c], x);
            if j - 1 > c {
                lemma_text_lt_trans(x, s[c], s[j - 1]);
            }
        } else {
            assert(r[i] == s[i - 1] && r[j] == s[j - 1]);
        }
    }
    assert forall|y: Seq<char>| r.to_set().contains(y) <==> s.to_set().insert(x).contains(y) by {
        if r.to_set().contains(y) {
            let k = choose|k: int| 0 <= k < r.len() && r[k] == y;
            if k < c {
                assert(s[k] == y);
            } else if k > c {
                assert(s[k - 1] == y);
            }
        }
        if s.to_set().contains(y) && y != x {
            let k = choose|k: int| 0 <= k < s.len() && s[k] == y;
            if k < c {
                assert(r[k] == y);
            } else {
                assert(r[k + 1] == y);
            }
        }
        if y == x {
            assert(r[c] == x);
        }
    }
    assert(r.to_set() =~= s.to_set().insert(x));
}

pub proof fn lemma_push_set<A>(s: Seq<A>, x: A)
    ensures
        s.push(x).to_set() == s.to_set().insert(x),
{
    assert forall|y: A| s.push(x).to_set().contains(y) <==> s.to_set().insert(x).contains(y) by {
        if s.push(x).to_set().contains(y) && y != x {
            let k = choose|k: int| 0 <= k < s.push(x).len() && s.push(x)[k] == y;
            assert(s[k] == y);
        }
        if s.to_set().contains(y) {
            let k = choose|k: int| 0 <= k < s.len() && s[k] == y;
            assert(s.push(x)[k] == y);
        }
        if y == x {
            assert(s.push(x)[s.len() as int] == x);
        }
    }
    assert(s.push(x).to_set() =~= s.to_set().insert(x));
}

/// The texts sorted, each once.
pub fn sorted_unique(v: &Vec<String>) -> (r: Vec<String>)
    ensures
        texts_strict(sv(r@)),
        sv(r@).to_set() == sv(v@).to_set(),
{
    let mut out: Vec<String> = Vec::new();
    let mut i: usize = 0;
    assert(sv(out@).to_set() =~= sv(v@).take(0).to_set());
    while i < v.len()
        invariant
            i <= v@.len(),
            texts_strict(sv(out@)),
            sv(out@).to_set() == sv(v@).take(i as int).to_set(),
        decreases v@.len() - i,
    {
        let ghost s = sv(out@);
        let x = to_chars(v[i].as_str());
        proof {
            lemma_text_pos(s, x@);
            lemma_insert_text(s, x@);
        }
        let mut c: usize = 0;
        assert(s.skip(0) =~= s);
        while c < out.len() && text_lt_exec(&to_chars(out[c].as_str()), &x)
            invariant
                c <= out@.len(),
                s == sv(out@),
                forall|k: int| 0 <= k < c ==> text_lt(#[trigger] s[k], x@),
                text_pos(s, x@) == c + text_pos(s.skip(c as int), x@),
            decreases out@.len() - c,
        {
            assert(s.skip(c as int)[0] == s[c as int]);
            assert(s.skip(c as int).drop_first() =~= s.skip(c + 1));
            c = c + 1;
        }
        proof {
            if c < out@.len() {
                assert(s.skip(c as int)[0] == s[c as int]);
            } else {
                assert(s.skip(c as int) =~= Seq::<Seq<char>>::empty());
            }
        }
        assert(c as int == text_pos(s, x@));
        if c < out.len() && crate::strs::chars_eq(&to_chars(out[c].as_str()), &x) {
        } else {
            out.insert(c, v[i].clone());
            assert(sv(out@) =~= s.take(c as int) + seq![x@] + s.skip(c as int));
        }
        assert(sv(out@) == insert_text(s, x@));
        assert(sv(v@).take(i + 1) =~= sv(v@).take(i as int).push(v@[i as int]@));
        proof {
            lemma_push_set(sv(v@).take(i as int), x@);
        }
        i = i + 1;
    }
    assert(sv(v@).take(i as int) =~= sv(v@));
    out
}

// ---------------------------------------------------------------------------
// The pack
// ---------------------------------------------------------------------------

/// The evidence of page `p` for field `f`, if it has any entry for it.
pub open spec fn items_of(fields: Seq<(String, Vec<FieldEvidence>)>, f: Seq<char>) -> Option<Seq<FieldEvidence>>
    decreases fields.len(),
{
    if fields.len() == 0 {
        None
    } else if fields[0].0@ == f {
        Some(fields[0].1@)
    } else {
        items_of(fields.drop_first(), f)
    }
}

pub open spec fn dec(n: usize) -> Seq<char> {
    decimal(n as nat)
}

/// One evidence line of a section.
pub open spec fn evidence_line(gp: Seq<char>, it: FieldEvidence) -> Seq<char> {
    "- `"@ + gp + "` lines "@ + dec(it.line_start) + "-"@ + dec(it.line_end) + ": "@ + compact(it.text@) + "\n"@
}

/// The source-trail line of one evidence item.
pub open spec fn evidence_trail(gp: Seq<char>, it: FieldEvidence, f: Seq<char>) -> Seq<char> {
    "- `"@ + gp + "` from `"@ + it.source_path@ + "` lines "@ + dec(it.line_start) + "-"@ + dec(it.line_end) + " ("@ + f + ")"@
}

/// The source-trail line of a page that no evidence cites.
pub open spec fn page_trail(p: CatalogPage) -> Seq<char> {
    "- `"@ + p.generated_path@ + "` from `"@ + p.source_path@ + "` lines "@ + dec(p.source_range.line_start) + "-"@
        + dec(p.source_range.line_end)
}

/// Text so far, trail lines, cited pages.
pub type Acc = (Seq<char>, Seq<Seq<char>>, Seq<Seq<char>>);

pub open spec fn items_acc(a: Acc, gp: Seq<char>, its: Seq<FieldEvidence>, f: Seq<char>, k: int) -> Acc
    decreases k,
{
    if k <= 0 {
        a
    } else {
        let b = items_acc(a, gp, its, f, k - 1);
        (b.0 + evidence_line(gp, its[k - 1]), b.1.push(evidence_trail(gp, its[k - 1], f)), b.2.push(gp))
    }
}

pub open spec fn pages_acc(a: Acc, pages: Seq<CatalogPage>, f: Seq<char>, k: int) -> Acc
    decreases k,
{
    if k <= 0 {
        a
    } else {
        let b = pages_acc(a, pages, f, k - 1);
        let p = pages[k - 1];
        match items_of(p.fields@, f) {
            Some(its) => items_acc(b, p.generated_path@, its, f, its.len() as int),
            None => b,
        }
    }
}

pub open spec fn fields_acc(a: Acc, pages: Seq<CatalogPage>, fields: Seq<String>, k: int) -> Acc
    decreases k,
{
    if k <= 0 {
        a
    } else {
        pages_acc(fields_acc(a, pages, fields, k - 1), pages, fields[k - 1]@, pages.len() as int)
    }
}

pub open spec fn is_sources(sec: ContextSection) -> bool {
    sec.kind matches Some(k) && k@ == "sources"@
}

/// The section texts, the trail lines and the cited pages of the first `k` sections.
pub open spec fn sections_acc(secs: Seq<ContextSection>, pages: Seq<CatalogPage>, k: int) -> Acc
    decreases k,
{
    if k <= 0 {
        (seq![], seq![], seq![])
    } else {
        let a = sections_acc(secs, pages, k - 1);
        let sec = secs[k - 1];
        if is_sources(sec) {
            a
        } else {
            let b = fields_acc((seq![], a.1, a.2), pages, sec.fields@, sec.fields@.len() as int);
            (a.0 + if b.0.len() > 0 { "\n## "@ + sec.title@ + "\n\n"@ + b.0 } else { seq![] }, b.1, b.2)
        }
    }
}

/// Some page has evidence for `f` (one in scope, for a required section).
pub open spec fn found(sec: ContextSection, f: Seq<char>, pages: Seq<CatalogPage>, scope: Seq<Seq<char>>) -> bool {
    exists|p: int| 0 <= p < pages.len() && (#[trigger] items_of(pages[p].fields@, f)) is Some
        && (!sec.required || scope.contains(pages[p].generated_path@))
}

pub open spec fn missing_fields(sec: ContextSection, pages: Seq<CatalogPage>, scope: Seq<Seq<char>>, k: int) -> Seq<Seq<char>>
    decreases k,
{
    if k <= 0 {
        seq![]
    } else {
        let m = missing_fields(sec, pages, scope, k - 1);
        let f = sec.fields@[k - 1]@;
        if sec.required && !found(sec, f, pages, scope) {
            m.push("- `"@ + f + "` for section `"@ + sec.title@ + "`"@)
        } else {
            m
        }
    }
}

/// The required fields without evidence, section by section.
pub open spec fn missing_acc(secs: Seq<ContextSection>, pages: Seq<CatalogPage>, scope: Seq<Seq<char>>, k: int) -> Seq<Seq<char>>
    decreases k,
{
    if k <= 0 {
        seq![]
    } else {
        let m = missing_acc(secs, pages, scope, k - 1);
        let sec = secs[k - 1];
        if is_sources(sec) { m } else { m + missing_fields(sec, pages, scope, sec.fields@.len() as int) }
    }
}

/// Trail lines of the first `k` pages that no evidence cites.
pub open spec fn uncited(pages: Seq<CatalogPage>, cited: Seq<Seq<char>>, k: int) -> Seq<Seq<char>>
    decreases k,
{
    if k <= 0 {
        seq![]
    } else {
        let t = uncited(pages, cited, k - 1);
        if cited.contains(pages[k - 1].generated_path@) { t } else { t.push(page_trail(pages[k - 1])) }
    }
}

/// Each text on a line of its own.
pub open spec fn line_block(ls: Seq<Seq<char>>, k: int) -> Seq<char>
    decreases k,
{
    if k <= 0 {
        seq![]
    } else {
        line_block(ls, k - 1) + ls[k - 1] + "\n"@
    }
}

/// The titles of the required sections.
pub open spec fn required_titles(secs: Seq<ContextSection>, k: int) -> Seq<Seq<char>>
    decreases k,
{
    if k <= 0 {
        seq![]
    } else {
        let t = required_titles(secs, k - 1);
        if secs[k - 1].required { t.push(secs[k - 1].title@) } else { t }
    }
}

/// All source-trail lines, before sorting.
pub open spec fn trail_of(secs: Seq<ContextSection>, pages: Seq<CatalogPage>) -> Seq<Seq<char>> {
    let a = sections_acc(secs, pages, secs.len() as int);
    a.1 + uncited(pages, a.2, pages.len() as int)
}

/// The whole pack before the budget, with the trail lines `trail` (sorted, each once).
pub open spec fn pack_text(
    header: Seq<char>,
    secs: Seq<ContextSection>,
    pages: Seq<CatalogPage>,
    scope: Seq<Seq<char>>,
    trail: Seq<Seq<char>>,
) -> Seq<char> {
    let a = sections_acc(secs, pages, secs.len() as int);
    let miss = missing_acc(secs, pages, scope, secs.len() as int);
    header + a.0 + (if miss.len() > 0 { "\n## Missing Required Evidence\n\n"@ + line_block(miss, miss.len() as int) } else { seq![] })
        + "\n## Source Trail\n\n"@ + if trail.len() == 0 { "- No sources matched.\n"@ } else { line_block(trail, trail.len() as int) }
}

/// The front matter and title line that open a pack.
pub open spec fn pack_header(yaml: Seq<char>, title: Seq<char>) -> Seq<char> {
    "---\n"@ + yaml + "---\n"@ + "# "@ + title + "\n"@
}

fn dec_exec(n: usize) -> (r: Vec<char>)
    ensures
        r@ == dec(n),
{
    decimal_chars(n)
}

fn items_index(fields: &Vec<(String, Vec<FieldEvidence>)>, f: &[char]) -> (r: Option<usize>)
    ensures
        match items_of(fields@, f@) {
            Some(its) => r matches Some(k) && k < fields@.len() && fields@[k as int].1@ == its,
            None => r is None,
        },
{
    let mut i: usize = 0;
    assert(fields@.skip(0) =~= fields@);
    while i < fields.len()
        invariant
            i <= fields@.len(),
            items_of(fields@, f@) == items_of(fields@.skip(i as int), f@),
        decreases fields@.len() - i,
    {
        assert(fields@.skip(i as int)[0] == fields@[i as int]);
        assert(fields@.skip(i as int).drop_first() =~= fields@.skip(i + 1));
        if crate::strs::chars_eq(&to_chars(fields[i].0.as_str()), f) {
            return Some(i);
        }
        i = i + 1;
    }
    assert(fields@.skip(i as int) =~= Seq::<(String, Vec<FieldEvidence>)>::empty());
    None
}

fn push_str(out: &mut Vec<char>, s: &str)
    ensures
        final(out)@ == old(out)@ + s@,
{
    push_all(out, &to_chars(s));
}

fn push_text(out: &mut Vec<String>, s: Vec<char>)
    ensures
        sv(final(out)@) == sv(old(out)@).push(s@),
{
    let ghost before = sv(out@);
    out.push(from_chars(&s));
    assert(sv(out@) =~= before.push(s@));
}

/// The evidence of one page for one field: lines of the section, trail lines, cited page.
fn add_items(body: &mut Vec<char>, trail: &mut Vec<String>, cited: &mut Vec<String>, p: &CatalogPage, its: &Vec<FieldEvidence>, f: &[char])
    ensures
        (final(body)@, sv(final(trail)@), sv(final(cited)@)) == items_acc((old(body)@, sv(old(trail)@), sv(old(cited)@)), p.generated_path@, its@, f@, its@.len() as int),
{
    let ghost a0: Acc = (body@, sv(trail@), sv(cited@));
    let mut k: usize = 0;
    while k < its.len()
        invariant
            k <= its@.len(),
            (body@, sv(trail@), sv(cited@)) == items_acc(a0, p.generated_path@, its@, f@, k as int),
        decreases its@.len() - k,
    {
        let it = &its[k];
        let gp = p.generated_path.as_str();
        push_str(body, "- `");
        push_str(body, gp);
        push_str(body, "` lines ");
        push_all(body, &dec_exec(it.line_start));
        push_str(body, "-");
        push_all(body, &dec_exec(it.line_end));
        push_str(body, ": ");
        push_all(body, &to_chars(compact_line(it.text.as_str()).as_str()));
        push_str(body, "\n");
        let mut t: Vec<char> = Vec::new();
        push_str(&mut t, "- `");
        push_str(&mut t, gp);
        push_str(&mut t, "` from `");
        push_str(&mut t, it.source_path.as_str());
        push_str(&mut t, "` lines ");
        push_all(&mut t, &dec_exec(it.line_start));
        push_str(&mut t, "-");
        push_all(&mut t, &dec_exec(it.line_end));
        push_str(&mut t, " (");
        push_all(&mut t, f);
        push_str(&mut t, ")");
        push_text(trail, t);
        let ghost cb = sv(cited@);
        cited.push(p.generated_path.clone());
        assert(sv(cited@) =~= cb.push(p.generated_path@));
        proof {
            let b = items_acc(a0, p.generated_path@, its@, f@, k as int);
            assert(body@ =~= b.0 + evidence_line(p.generated_path@, its@[k as int]));
            assert(sv(trail@)[sv(trail@).len() - 1] == evidence_trail(p.generated_path@, its@[k as int], f@));
        }
        k = k + 1;
    }
}

fn in_list(v: &Vec<String>, x: &str) -> (r: bool)
    ensures
        r == sv(v@).contains(x@),
{
    let xv = to_chars(x);
    let mut i: usize = 0;
    while i < v.len()
        invariant
            i <= v@.len(),
            xv@ == x@,
            forall|j: int| 0 <= j < i ==> sv(v@)[j] != x@,
        decreases v@.len() - i,
    {
        if crate::strs::chars_eq(&to_chars(v[i].as_str()), &xv) {
            assert(sv(v@)[i as int] == x@);
            return true;
        }
        i = i + 1;
    }
    false
}

/// All pages' evidence for one field; whether evidence counting for the section was found.
fn add_field(
    body: &mut Vec<char>,
    trail: &mut Vec<String>,
    cited: &mut Vec<String>,
    pages: &[CatalogPage],
    sec: &ContextSection,
    f: &[char],
    scope: &Vec<String>,
) -> (found_any: bool)
    ensures
        (final(body)@, sv(final(trail)@), sv(final(cited)@)) == pages_acc((old(body)@, sv(old(trail)@), sv(old(cited)@)), pages@, f@, pages@.len() as int),
        found_any == found(*sec, f@, pages@, sv(scope@)),
{
    let ghost a0: Acc = (body@, sv(trail@), sv(cited@));
    let mut any = false;
    let mut k: usize = 0;
    while k < pages.len()
        invariant
            k <= pages@.len(),
            (body@, sv(trail@), sv(cited@)) == pages_acc(a0, pages@, f@, k as int),
            any == exists|p: int| 0 <= p < k && (#[trigger] items_of(pages@[p].fields@, f@)) is Some
                && (!sec.required || sv(scope@).contains(pages@[p].generated_path@)),
        decreases pages@.len() - k,
    {
        let p = &pages[k];
        match items_index(&p.fields, f) {
            Some(j) => {
                if !sec.required || in_list(scope, p.generated_path.as_str()) {
                    any = true;
                }
                add_items(body, trail, cited, p, &p.fields[j].1, f);
            },
            None => {},
        }
        k = k + 1;
    }
    any
}

/// The fields of one section: its text, and its missing-evidence lines.
fn add_section(
    trail: &mut Vec<String>,
    cited: &mut Vec<String>,
    missing: &mut Vec<String>,
    pages: &[CatalogPage],
    sec: &ContextSection,
    scope: &Vec<String>,
) -> (body: Vec<char>)
    ensures
        (body@, sv(final(trail)@), sv(final(cited)@)) == fields_acc((seq![], sv(old(trail)@), sv(old(cited)@)), pages@, sec.fields@, sec.fields@.len() as int),
        sv(final(missing)@) == sv(old(missing)@) + missing_fields(*sec, pages@, sv(scope@), sec.fields@.len() as int),
{
    let ghost a0: Acc = (seq![], sv(trail@), sv(cited@));
    let ghost m0 = sv(missing@);
    let mut body: Vec<char> = Vec::new();
    let mut j: usize = 0;
    assert(m0 + missing_fields(*sec, pages@, sv(scope@), 0) =~= m0);
    while j < sec.fields.len()
        invariant
            j <= sec.fields@.len(),
            (body@, sv(trail@), sv(cited@)) == fields_acc(a0, pages@, sec.fields@, j as int),
            sv(missing@) == m0 + missing_fields(*sec, pages@, sv(scope@), j as int),
        decreases sec.fields@.len() - j,
    {
        let f = to_chars(sec.fields[j].as_str());
        let any = add_field(&mut body, trail, cited, pages, sec, &f, scope);
        if sec.required && !any {
            let mut line: Vec<char> = Vec::new();
            push_str(&mut line, "- `");
            push_all(&mut line, &f);
            push_str(&mut line, "` for section `");
            push_str(&mut line, sec.title.as_str());
            push_str(&mut line, "`");
            push_text(missing, line);
        }
        assert(sv(missing@) =~= m0 + missing_fields(*sec, pages@, sv(scope@), j + 1));
        j = j + 1;
    }
    body
}

fn push_block(out: &mut Vec<char>, ls: &Vec<String>)
    ensures
        final(out)@ == old(out)@ + line_block(sv(ls@), ls@.len() as int),
{
    let ghost o0 = out@;
    let mut k: usize = 0;
    while k < ls.len()
        invariant
            k <= ls@.len(),
            out@ == o0 + line_block(sv(ls@), k as int),
        decreases ls@.len() - k,
    {
        push_str(out, ls[k].as_str());
        push_str(out, "\n");
        assert(out@ =~= o0 + line_block(sv(ls@), k + 1));
        k = k + 1;
    }
}

/// Build the context pack of a recipe from the selected pages, then cut it
/// down to `budget` characters. `frontmatter_yaml` is the pack's front
/// matter, already written as YAML; `scope` holds the pages whose evidence
/// counts for required sections.
pub fn pack_with_budget(
    frontmatter_yaml: &str,
    task: &str,
    recipe: &ContextRecipe,
    pages: &[CatalogPage],
    scope: &Vec<String>,
    budget: usize,
) -> (r: String)
    ensures
        exists|t: Seq<Seq<char>>| #![trigger texts_strict(t)]
            texts_strict(t) && t.to_set() == trail_of(recipe.sections@, pages@).to_set()
            && r@ == budgeted(
                pack_text(
                    pack_header(frontmatter_yaml@, match recipe.title { Some(t) => t@, None => task@ }),
                    recipe.sections@,
                    pages@,
                    sv(scope@),
                    t,
                ),
                budget as nat,
                required_titles(recipe.sections@, recipe.sections@.len() as int),
            ),
        r@.len() <= budget,
{
    let secs = &recipe.sections;
    let mut pack: Vec<char> = Vec::new();
    push_str(&mut pack, "---\n");
    push_str(&mut pack, frontmatter_yaml);
    push_str(&mut pack, "---\n");
    push_str(&mut pack, "# ");
    match &recipe.title {
        Some(t) => push_str(&mut pack, t.as_str()),
        None => push_str(&mut pack, task),
    }
    push_str(&mut pack, "\n");
    let ghost header = pack@;
    let mut trail: Vec<String> = Vec::new();
    let mut cited: Vec<String> = Vec::new();
    let mut missing: Vec<String> = Vec::new();
    let mut titles: Vec<String> = Vec::new();
    let mut k: usize = 0;
    assert(sv(trail@) =~= Seq::<Seq<char>>::empty());
    assert(sv(cited@) =~= Seq::<Seq<char>>::empty());
    assert(sv(missing@) =~= Seq::<Seq<char>>::empty());
    assert(sv(titles@) =~= Seq::<Seq<char>>::empty());
    assert(header + sections_acc(secs@, pages@, 0).0 =~= header);
    while k < secs.len()
        invariant
            k <= secs@.len(),
            *secs == recipe.sections,
            pack@ == header + sections_acc(secs@, pages@, k as int).0,
            sv(trail@) == sections_acc(secs@, pages@, k as int).1,
            sv(cited@) == sections_acc(secs@, pages@, k as int).2,
            sv(missing@) == missing_acc(secs@, pages@, sv(scope@), k as int),
            sv(titles@) == required_titles(secs@, k as int),
        decreases secs@.len() - k,
    {
        let sec = &secs[k];
        if sec.required {
            let ghost tb = sv(titles@);
            titles.push(sec.title.clone());
            assert(sv(titles@) =~= tb.push(sec.title@));
        }
        let is_src = match &sec.kind {
            Some(kd) => crate::strs::eq_str(&to_chars(kd.as_str()), "sources"),
            None => false,
        };
        assert(is_src == is_sources(*sec));
        if !is_src {
            let ghost mb = sv(missing@);
            let body = add_section(&mut trail, &mut cited, &mut missing, pages, sec, scope);
            if body.len() > 0 {
                push_str(&mut pack, "\n## ");
                push_str(&mut pack, sec.title.as_str());
                push_str(&mut pack, "\n\n");
                push_all(&mut pack, &body);
            }
            assert(pack@ =~= header + sections_acc(secs@, pages@, k + 1).0);
            assert(sv(missing@) =~= missing_acc(secs@, pages@, sv(scope@), k + 1));
        }
        k = k + 1;
    }
    let ghost acc = sections_acc(secs@, pages@, secs@.len() as int);
    let ghost t_sec = sv(trail@);
    let mut q: usize = 0;
    assert(sv(trail@) =~= t_sec + uncited(pages@, acc.2, 0));
    while q < pages.len()
        invariant
            q <= pages@.len(),
            sv(cited@) == acc.2,
            sv(trail@) == t_sec + uncited(pages@, acc.2, q as int),
        decreases pages@.len() - q,
    {
        if !in_list(&cited, pages[q].generated_path.as_str()) {
            let p = &pages[q];
            let mut t: Vec<char> = Vec::new();
            push_str(&mut t, "- `");
            push_str(&mut t, p.generated_path.as_str());
            push_str(&mut t, "` from `");
            push_str(&mut t, p.source_path.as_str());
            push_str(&mut t, "` lines ");
            push_all(&mut t, &dec_exec(p.source_range.line_start));
            push_str(&mut t, "-");
            push_all(&mut t, &dec_exec(p.source_range.line_end));
            push_text(&mut trail, t);
        }
        assert(sv(trail@) =~= t_sec + uncited(pages@, acc.2, q + 1));
        q = q + 1;
    }
    if missing.len() > 0 {
        push_str(&mut pack, "\n## Missing Required Evidence\n\n");
        push_block(&mut pack, &missing);
    }
    push_str(&mut pack, "\n## Source Trail\n\n");
    let sorted = sorted_unique(&trail);
    proof {
        if sv(trail@).len() == 0 {
            assert(sv(trail@).to_set() =~= Set::<Seq<char>>::empty());
            if sv(sorted@).len() > 0 {
                assert(sv(sorted@).to_set().contains(sv(sorted@)[0]));
            }
        } else {
            assert(sv(trail@).to_set().contains(sv(trail@)[0]));
            if sv(sorted@).len() == 0 {
                assert(sv(sorted@).to_set() =~= Set::<Seq<char>>::empty());
            }
        }
    }
    if trail.len() == 0 {
        push_str(&mut pack, "- No sources matched.\n");
    } else {
        push_block(&mut pack, &sorted);
    }
    let ghost t = sv(sorted@);
    assert(pack@ =~= pack_text(header, secs@, pages@, sv(scope@), t));
    let r = enforce_budget(from_chars(&pack), budget, &titles);
    assert(texts_strict(t));
    r
}

} // verus!
