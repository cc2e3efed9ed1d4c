//! Fitting a context pack into a character budget: required sections first,
//! then the others, each whole or with its evidence lines pruned, then as
//! much of the source trail as fits; never more characters than the budget.
use vstd::prelude::*;
use crate::num::{decimal, decimal_chars};
use crate::strs::{from_chars, lines, lines_chars, push_all, slice_copy, starts_with, starts_with_at, sv, to_chars, trim, trim_idx, vv};

verus! {

// ---------------------------------------------------------------------------
// Searching
// ---------------------------------------------------------------------------

/// The first index at or after `i` where `pat` occurs in `s`.
pub open spec fn find_from(s: Seq<char>, pat: Seq<char>, i: int) -> Option<int>
    decreases s.len() + 1 - i,
{
    if i < 0 || i + pat.len() > s.len() {
        None
    } else if s.subrange(i, i + pat.len()) == pat {
        Some(i)
    } else {
        find_from(s, pat, i + 1)
    }
}

pub proof fn lemma_find_from(s: Seq<char>, pat: Seq<char>, i: int)
    ensures
        find_from(s, pat, i) matches Some(k) ==> i <= k && k + pat.len() <= s.len() && s.subrange(k, k + pat.len()) == pat,
    decreases s.len() + 1 - i,
{
    if !(i < 0 || i + pat.len() > s.len()) && s.subrange(i, i + pat.len()) != pat {
        lemma_find_from(s, pat, i + 1);
    }
}

pub fn find_from_exec(v: &[char], pat: &[char], i: usize) -> (r: Option<usize>)
    requires
        pat@.len() > 0,
    ensures
        match r {
            Some(j) => find_from(v@, pat@, i as int) == Some(j as int),
            None => find_from(v@, pat@, i as int) is None,
        },
{
    if pat.len() > v.len() {
        return None;
    }
    let mut j = i;
    while j <= v.len() - pat.len()
        invariant
            0 < pat@.len() <= v@.len(),
            i <= j,
            find_from(v@, pat@, i as int) == find_from(v@, pat@, j as int),
        decreases v@.len() + 1 - j,
    {
        if starts_with_at(v, j, v.len(), pat) {
            assert(v@.subrange(j as int, v@.len() as int).subrange(0, pat@.len() as int) =~= v@.subrange(j as int, j + pat@.len()));
            return Some(j);
        }
        assert(v@.subrange(j as int, v@.len() as int).subrange(0, pat@.len() as int) =~= v@.subrange(j as int, j + pat@.len()));
        j = j + 1;
    }
    None
}

// ---------------------------------------------------------------------------
// Fixed texts
// ---------------------------------------------------------------------------

pub open spec fn trail_heading() -> Seq<char> {
    "\n## Source Trail\n\n"@
}

pub open spec fn section_mark() -> Seq<char> {
    "\n## "@
}

pub open spec fn omitted_text() -> Seq<char> {
    "\n\nOmitted due to budget.\n"@
}

pub open spec fn trail_omitted() -> Seq<char> {
    "- Omitted due to budget.\n"@
}

pub open spec fn pruned_note() -> Seq<char> {
    "- Omitted due to budget; see Source Trail.\n"@
}

/// What every placement keeps free: the omission note, the trail heading and the trail's omission line.
pub open spec fn reserved_len() -> nat {
    omitted_text().len() + trail_heading().len() + trail_omitted().len()
}

// ---------------------------------------------------------------------------
// Sections
// ---------------------------------------------------------------------------

/// Where `"\n## "` occurs in `body`, from `cursor` on, each search starting one past the last hit.
pub open spec fn section_starts(body: Seq<char>, cursor: int) -> Seq<int>
    decreases body.len() + 1 - cursor,
{
    if cursor < 0 || cursor > body.len() {
        seq![]
    } else {
        match find_from(body, section_mark(), cursor) {
            Some(st) => {
                proof {
                    lemma_find_from(body, section_mark(), cursor);
                }
                seq![st] + section_starts(body, st + 1)
            },
            None => seq![],
        }
    }
}

/// The first line with prefix `p`.
pub open spec fn first_with_prefix(ls: Seq<Seq<char>>, p: Seq<char>) -> Option<Seq<char>>
    decreases ls.len(),
{
    if ls.len() == 0 {
        None
    } else if starts_with(ls[0], p) {
        Some(ls[0])
    } else {
        first_with_prefix(ls.drop_first(), p)
    }
}

/// The title of a section: its first `## ` line without the marker, trimmed (empty if none).
pub open spec fn section_title(sec: Seq<char>) -> Seq<char> {
    match first_with_prefix(lines(sec), "## "@) {
        Some(l) => trim(l.skip(3)),
        None => seq![],
    }
}

/// The sections of `body`: each runs from one `"\n## "` to the next (or the end).
pub open spec fn sections_of(body: Seq<char>) -> Seq<(Seq<char>, Seq<char>)> {
    let st = section_starts(body, 0);
    Seq::new(st.len(), |k: int| {
        let sec = body.subrange(st[k], if k + 1 < st.len() { st[k + 1] } else { body.len() as int });
        (section_title(sec), sec)
    })
}

pub proof fn lemma_section_starts(body: Seq<char>, cursor: int)
    ensures
        forall|k: int| 0 <= k < section_starts(body, cursor).len() ==> cursor <= #[trigger] section_starts(body, cursor)[k] <= body.len(),
        forall|a: int, b: int| 0 <= a < b < section_starts(body, cursor).len() ==> #[trigger] section_starts(body, cursor)[a] < #[trigger] section_starts(body, cursor)[b],
    decreases body.len() + 1 - cursor,
{
    if !(cursor < 0 || cursor > body.len()) {
        lemma_find_from(body, section_mark(), cursor);
        match find_from(body, section_mark(), cursor) {
            Some(st) => {
                lemma_section_starts(body, st + 1);
                let rest = section_starts(body, st + 1);
                assert(section_starts(body, cursor) == seq![st] + rest);
                assert forall|k: int| 0 <= k < section_starts(body, cursor).len() implies cursor <= #[trigger] section_starts(body, cursor)[k] <= body.len() by {
                    if k > 0 {
                        assert(section_starts(body, cursor)[k] == rest[k - 1]);
                    }
                }
                assert forall|a: int, b: int| 0 <= a < b < section_starts(body, cursor).len() implies #[trigger] section_starts(body, cursor)[a] < #[trigger] section_starts(body, cursor)[b] by {
                    assert(section_starts(body, cursor)[b] == rest[b - 1]);
                    if a > 0 {
                        assert(section_starts(body, cursor)[a] == rest[a - 1]);
                    }
                }
            },
            None => {},
        }
    }
}

proof fn lemma_first_with_prefix(ls: Seq<Seq<char>>, p: Seq<char>)
    ensures
        first_with_prefix(ls, p) matches Some(l) ==> starts_with(l, p),
    decreases ls.len(),
{
    if ls.len() > 0 && !starts_with(ls[0], p) {
        lemma_first_with_prefix(ls.drop_first(), p);
    }
}

fn first_with_prefix_exec(ls: &Vec<Vec<char>>, p: &[char]) -> (r: Option<usize>)
    ensures
        match first_with_prefix(vv(ls), p@) {
            Some(l) => r matches Some(k) && k < ls@.len() && vv(ls)[k as int] == l,
            None => r is None,
        },
{
    let ghost s = vv(ls);
    let mut i: usize = 0;
    assert(s.skip(0) =~= s);
    while i < ls.len()
        invariant
            i <= ls@.len(),
            s == vv(ls),
            first_with_prefix(s, p@) == first_with_prefix(s.skip(i as int), p@),
        decreases ls@.len() - i,
    {
        let ghost rest = s.skip(i as int);
        assert(rest[0] == ls@[i as int]@);
        assert(rest.drop_first() =~= s.skip(i + 1));
        assert(ls@[i as int]@.subrange(0, ls@[i as int]@.len() as int) =~= ls@[i as int]@);
        if starts_with_at(&ls[i], 0, ls[i].len(), p) {
            return Some(i);
        }
        i = i + 1;
    }
    assert(s.skip(i as int) =~= Seq::<Seq<char>>::empty());
    None
}

fn section_title_exec(sec: &[char]) -> (r: Vec<char>)
    ensures
        r@ == section_title(sec@),
{
    let ls = lines_chars(sec);
    let mark = to_chars("## ");
    match first_with_prefix_exec(&ls, &mark) {
        Some(k) => {
            let l = &ls[k];
            proof {
                reveal_strlit("## ");
                lemma_first_with_prefix(vv(&ls), mark@);
                assert(starts_with(l@, "## "@));
            }
            let (a, b) = trim_idx(l, 3, l.len());
            assert(l@.subrange(3, l@.len() as int) =~= l@.skip(3));
            slice_copy(l, a, b)
        },
        None => Vec::new(),
    }
}

/// `(title, text)` of each section of `body`.
fn markdown_sections(body: &[char]) -> (r: Vec<(Vec<char>, Vec<char>)>)
    ensures
        r@.len() == sections_of(body@).len(),
        forall|k: int| 0 <= k < r@.len() ==> (#[trigger] r@[k]).0@ == sections_of(body@)[k].0 && r@[k].1@ == sections_of(body@)[k].1,
{
    let mark = to_chars("\n## ");
    let blen = body.len();
    let mut starts: Vec<usize> = Vec::new();
    let mut cursor: usize = 0;
    let ghost all = section_starts(body@, 0);
    proof {
        reveal_strlit("\n## ");
        lemma_section_starts(body@, 0);
        assert(starts@.map_values(|x: usize| x as int) + section_starts(body@, 0) =~= section_starts(body@, 0));
    }
    loop
        invariant
            cursor <= body@.len(),
            mark@ == section_mark(),
            all == section_starts(body@, 0),
            all == starts@.map_values(|x: usize| x as int) + section_starts(body@, cursor as int),
            mark@.len() == 4,
            blen == body@.len(),
        ensures
            all == starts@.map_values(|x: usize| x as int),
        decreases body@.len() - cursor,
    {
        match find_from_exec(body, &mark, cursor) {
            Some(st) => {
                proof {
                    lemma_find_from(body@, section_mark(), cursor as int);
                    assert(find_from(body@, section_mark(), cursor as int) == Some(st as int));
                    assert(st + section_mark().len() <= body@.len());
                    reveal_strlit("\n## ");
                    assert(section_mark().len() == 4);
                }
                let ghost before = starts@.map_values(|x: usize| x as int);
                starts.push(st);
                assert(starts@.map_values(|x: usize| x as int) =~= before.push(st as int));
                assert(section_starts(body@, cursor as int) == seq![st as int] + section_starts(body@, st + 1));
                assert(before.push(st as int) + section_starts(body@, st + 1) =~= before + (seq![st as int] + section_starts(body@, st + 1)));
                cursor = st + 1;
            },
            None => {
                assert(section_starts(body@, cursor as int) =~= Seq::<int>::empty());
                assert(all =~= starts@.map_values(|x: usize| x as int));
                break;
            },
        }
    }
    assert(all =~= starts@.map_values(|x: usize| x as int));
    let mut out: Vec<(Vec<char>, Vec<char>)> = Vec::new();
    let mut k: usize = 0;
    while k < starts.len()
        invariant
            k <= starts@.len(),
            all == starts@.map_values(|x: usize| x as int),
            all == section_starts(body@, 0),
            forall|j: int| 0 <= j < all.len() ==> 0 <= #[trigger] all[j] <= body@.len(),
            forall|a: int, b: int| 0 <= a < b < all.len() ==> #[trigger] all[a] < #[trigger] all[b],
            out@.len() == k,
            forall|j: int| 0 <= j < k ==> (#[trigger] out@[j]).0@ == sections_of(body@)[j].0 && out@[j].1@ == sections_of(body@)[j].1,
        decreases starts@.len() - k,
    {
        let end = if k + 1 < starts.len() { starts[k + 1] } else { body.len() };
        assert(all[k as int] == starts@[k as int] as int);
        proof {
            if k + 1 < starts@.len() {
                assert(all[k + 1] == starts@[k + 1] as int);
            }
        }
        let sec = slice_copy(body, starts[k], end);
        let title = section_title_exec(&sec);
        out.push((title, sec));
        k = k + 1;
    }
    out
}

// ---------------------------------------------------------------------------
// Placing sections
// ---------------------------------------------------------------------------

/// The section appended when it fits with room kept for the closing parts.
pub open spec fn place_section(out: Seq<char>, body: Seq<char>, budget: nat) -> Option<Seq<char>> {
    if out.len() + body.len() + reserved_len() <= budget {
        Some(out + body)
    } else {
        None
    }
}

/// The pruned text of the first `k` lines of a section: lines that are not
/// evidence (`- ...`) always kept, evidence lines kept while they fit with
/// the pruning note; and whether any evidence was seen or left out.
pub open spec fn pruned_fold(out_len: nat, ls: Seq<Seq<char>>, k: int, budget: nat) -> (Seq<char>, bool, bool)
    decreases k,
{
    if k <= 0 {
        (seq![], false, false)
    } else {
        let (c, saw, om) = pruned_fold(out_len, ls, k - 1, budget);
        let l = ls[k - 1];
        if !starts_with(l, "- "@) {
            (c + l + "\n"@, saw, om)
        } else if out_len + c.len() + l.len() + 1 + pruned_note().len() + reserved_len() <= budget {
            (c + l + "\n"@, true, om)
        } else {
            (c, true, true)
        }
    }
}

/// The section with its evidence pruned to fit, if it has evidence and the result fits.
pub open spec fn place_pruned(out: Seq<char>, body: Seq<char>, budget: nat) -> Option<Seq<char>> {
    let ls = lines(body);
    let (c, saw, om) = pruned_fold(out.len(), ls, ls.len() as int, budget);
    if !saw {
        None
    } else {
        place_section(out, if om { c + pruned_note() } else { c }, budget)
    }
}

/// One section placed whole, else pruned, else left out (and marked so).
pub open spec fn place_one(out: Seq<char>, omitted: bool, body: Seq<char>, budget: nat) -> (Seq<char>, bool) {
    match place_section(out, body, budget) {
        Some(o) => (o, omitted),
        None => match place_pruned(out, body, budget) {
            Some(o) => (o, omitted),
            None => (out, true),
        },
    }
}

/// Sections that must be kept: the missing-evidence list and the required ones.
pub open spec fn is_required(title: Seq<char>, titles: Seq<Seq<char>>) -> bool {
    title == "Missing Required Evidence"@ || titles.contains(title)
}

/// The first `k` sections whose being required is `required`, placed in order.
pub open spec fn place_pass(
    out: Seq<char>,
    omitted: bool,
    secs: Seq<(Seq<char>, Seq<char>)>,
    titles: Seq<Seq<char>>,
    required: bool,
    k: int,
    budget: nat,
) -> (Seq<char>, bool)
    decreases k,
{
    if k <= 0 {
        (out, omitted)
    } else {
        let (o, m) = place_pass(out, omitted, secs, titles, required, k - 1, budget);
        if is_required(secs[k - 1].0, titles) == required {
            place_one(o, m, secs[k - 1].1, budget)
        } else {
            (o, m)
        }
    }
}

/// Source-trail lines appended while each fits with the trail's omission
/// line; the text and how many were written.
pub open spec fn fill(out: Seq<char>, ls: Seq<Seq<char>>, budget: nat) -> (Seq<char>, nat)
    decreases ls.len(),
{
    if ls.len() == 0 || out.len() + ls[0].len() + 1 + trail_omitted().len() > budget {
        (out, 0)
    } else {
        let (o, n) = fill(out + ls[0] + "\n"@, ls.drop_first(), budget);
        (o, n + 1)
    }
}

/// The smallest pack: a context header with the budget, the title line if it fits, the trail heading.
pub open spec fn compact_floor(mandatory: Seq<char>, budget: nat) -> Seq<char> {
    let title_line = match first_with_prefix(lines(mandatory), "# "@) {
        Some(l) => l,
        None => "# Context"@,
    };
    let prefix = "---\nmd_wiki_context:\n  budget_chars: "@ + decimal(budget) + "\n---\n"@;
    let with_title = prefix + title_line + "\n\n## Source Trail\n"@;
    let without_title = prefix + "## Source Trail\n"@;
    let bare = "---\nmd_wiki_context: {}\n---\n## Source Trail\n"@;
    if with_title.len() <= budget {
        with_title
    } else if without_title.len() <= budget {
        without_title
    } else if bare.len() <= budget {
        bare
    } else {
        bare.take(budget as int)
    }
}

/// The pack cut down to the budget.
pub open spec fn budgeted(pack: Seq<char>, budget: nat, titles: Seq<Seq<char>>) -> Seq<char> {
    if pack.len() <= budget {
        pack
    } else {
        let found = find_from(pack, trail_heading(), 0);
        let source_start = match found { Some(i) => i, None => pack.len() as int };
        let prefix_end = match find_from(pack.take(source_start), section_mark(), 0) { Some(i) => i, None => source_start };
        let mandatory = pack.take(prefix_end);
        let secs = sections_of(pack.subrange(prefix_end, source_start));
        let source_body = match found { Some(i) => pack.skip(i + trail_heading().len()), None => seq![] };
        let (o1, m1) = place_pass(mandatory, false, secs, titles, true, secs.len() as int, budget);
        let (o2, m2) = place_pass(o1, m1, secs, titles, false, secs.len() as int, budget);
        let o3 = if m2 && o2.len() + reserved_len() <= budget { o2 + omitted_text() } else { o2 };
        let o4 = o3 + trail_heading();
        if o4.len() + trail_omitted().len() > budget {
            compact_floor(mandatory, budget)
        } else {
            let ls = lines(source_body);
            let (o5, n) = fill(o4, ls, budget);
            if n == 0 || n < ls.len() { o5 + trail_omitted() } else { o5 }
        }
    }
}

// ---------------------------------------------------------------------------
// The budget is kept
// ---------------------------------------------------------------------------

proof fn lemma_fill_bound(out: Seq<char>, ls: Seq<Seq<char>>, budget: nat)
    requires
        out.len() + trail_omitted().len() <= budget,
    ensures
        fill(out, ls, budget).0.len() + trail_omitted().len() <= budget,
        fill(out, ls, budget).1 <= ls.len(),
    decreases ls.len(),
{
    reveal_strlit("\n");
    if !(ls.len() == 0 || out.len() + ls[0].len() + 1 + trail_omitted().len() > budget) {
        lemma_fill_bound(out + ls[0] + "\n"@, ls.drop_first(), budget);
    }
}

proof fn lemma_compact_floor_bound(mandatory: Seq<char>, budget: nat)
    ensures
        compact_floor(mandatory, budget).len() <= budget,
{
}

/// `p` occurs in `s`.
pub open spec fn has_text(s: Seq<char>, p: Seq<char>) -> bool {
    exists|i: int| 0 <= i && i + p.len() <= s.len() && #[trigger] s.subrange(i, i + p.len()) == p
}

proof fn lemma_has_text_prefix(s: Seq<char>, t: Seq<char>, p: Seq<char>)
    requires
        has_text(s, p),
    ensures
        has_text(s + t, p),
{
    let i = choose|i: int| 0 <= i && i + p.len() <= s.len() && #[trigger] s.subrange(i, i + p.len()) == p;
    assert((s + t).subrange(i, i + p.len()) =~= s.subrange(i, i + p.len()));
}

proof fn lemma_has_text_at(s: Seq<char>, p: Seq<char>, i: int)
    requires
        0 <= i,
        i + p.len() <= s.len(),
        s.subrange(i, i + p.len()) == p,
    ensures
        has_text(s, p),
{
}

proof fn lemma_fill_prefix(out: Seq<char>, ls: Seq<Seq<char>>, budget: nat)
    ensures
        exists|t: Seq<char>| #[trigger] fill(out, ls, budget).0 == out + t,
    decreases ls.len(),
{
    if ls.len() == 0 || out.len() + ls[0].len() + 1 + trail_omitted().len() > budget {
        assert(fill(out, ls, budget).0 == out + Seq::<char>::empty());
    } else {
        let o2 = out + ls[0] + "\n"@;
        lemma_fill_prefix(o2, ls.drop_first(), budget);
        let t = choose|t: Seq<char>| #[trigger] fill(o2, ls.drop_first(), budget).0 == o2 + t;
        assert(fill(out, ls, budget).0 == out + (ls[0] + "\n"@ + t));
    }
}

/// The heading that a budgeted pack keeps.
pub open spec fn trail_title() -> Seq<char> {
    "## Source Trail"@
}

/// Law: a pack cut to a budget of at least 44 characters keeps its Source
/// Trail heading whenever it had to be cut or already had one.
pub proof fn lemma_budgeted_keeps_trail(pack: Seq<char>, budget: nat, titles: Seq<Seq<char>>)
    requires
        budget >= 44,
        pack.len() > budget || has_text(pack, trail_title()),
    ensures
        has_text(budgeted(pack, budget, titles), trail_title()),
{
    reveal_strlit("## Source Trail");
    reveal_strlit("\n## Source Trail\n\n");
    reveal_strlit("\n\n## Source Trail\n");
    reveal_strlit("## Source Trail\n");
    reveal_strlit("---\nmd_wiki_context: {}\n---\n## Source Trail\n");
    reveal_strlit("- Omitted due to budget.\n");
    let tt = trail_title();
    if pack.len() > budget {
        let found = find_from(pack, trail_heading(), 0);
        let source_start = match found { Some(i) => i, None => pack.len() as int };
        let prefix_end = match find_from(pack.take(source_start), section_mark(), 0) { Some(i) => i, None => source_start };
        let mandatory = pack.take(prefix_end);
        let secs = sections_of(pack.subrange(prefix_end, source_start));
        let source_body = match found { Some(i) => pack.skip(i + trail_heading().len()), None => seq![] };
        let (o1, m1) = place_pass(mandatory, false, secs, titles, true, secs.len() as int, budget);
        let (o2, m2) = place_pass(o1, m1, secs, titles, false, secs.len() as int, budget);
        let o3 = if m2 && o2.len() + reserved_len() <= budget { o2 + omitted_text() } else { o2 };
        let o4 = o3 + trail_heading();
        if o4.len() + trail_omitted().len() > budget {
            let title_line = match first_with_prefix(lines(mandatory), "# "@) {
                Some(l) => l,
                None => "# Context"@,
            };
            let prefix = "---\nmd_wiki_context:\n  budget_chars: "@ + decimal(budget) + "\n---\n"@;
            let with_title = prefix + title_line + "\n\n## Source Trail\n"@;
            let without_title = prefix + "## Source Trail\n"@;
            let bare = "---\nmd_wiki_context: {}\n---\n## Source Trail\n"@;
            assert(with_title.subrange((prefix.len() + title_line.len() + 2) as int, (prefix.len() + title_line.len() + 2 + 15) as int) =~= tt);
            lemma_has_text_at(with_title, tt, (prefix.len() + title_line.len() + 2) as int);
            assert(without_title.subrange(prefix.len() as int, (prefix.len() + 15) as int) =~= tt);
            lemma_has_text_at(without_title, tt, prefix.len() as int);
            assert(bare.len() == 44);
            assert(bare.subrange(28, 43) =~= tt);
            lemma_has_text_at(bare, tt, 28);
        } else {
            assert(o4.subrange((o3.len() + 1) as int, (o3.len() + 16) as int) =~= tt);
            lemma_has_text_at(o4, tt, (o3.len() + 1) as int);
            let ls = lines(source_body);
            lemma_fill_prefix(o4, ls, budget);
            let (o5, n) = fill(o4, ls, budget);
            let t = choose|t: Seq<char>| #[trigger] fill(o4, ls, budget).0 == o4 + t;
            lemma_has_text_prefix(o4, t, tt);
            lemma_has_text_prefix(o5, trail_omitted(), tt);
        }
    }
}

/// Whatever the pack, the budget and the required titles, the budgeted pack
/// has at most `budget` characters.
pub proof fn lemma_budgeted_within_budget(pack: Seq<char>, budget: nat, titles: Seq<Seq<char>>)
    ensures
        budgeted(pack, budget, titles).len() <= budget,
{
    if pack.len() > budget {
        let found = find_from(pack, trail_heading(), 0);
        let source_start = match found { Some(i) => i, None => pack.len() as int };
        let prefix_end = match find_from(pack.take(source_start), section_mark(), 0) { Some(i) => i, None => source_start };
        let mandatory = pack.take(prefix_end);
        let secs = sections_of(pack.subrange(prefix_end, source_start));
        let source_body = match found { Some(i) => pack.skip(i + trail_heading().len()), None => seq![] };
        let (o1, m1) = place_pass(mandatory, false, secs, titles, true, secs.len() as int, budget);
        let (o2, m2) = place_pass(o1, m1, secs, titles, false, secs.len() as int, budget);
        let o3 = if m2 && o2.len() + reserved_len() <= budget { o2 + omitted_text() } else { o2 };
        let o4 = o3 + trail_heading();
        lemma_compact_floor_bound(mandatory, budget);
        if o4.len() + trail_omitted().len() <= budget {
            lemma_fill_bound(o4, lines(source_body), budget);
        }
    }
}

// ---------------------------------------------------------------------------
// Executable
// ---------------------------------------------------------------------------

fn sum_fits(a: usize, b: usize, c: usize, d: usize, e: usize, f: usize, budget: usize) -> (r: bool)
    ensures
        r == (a + b + c + d + e + f <= budget),
{
    (a as u128) + (b as u128) + (c as u128) + (d as u128) + (e as u128) + (f as u128) <= (budget as u128)
}

fn place_section_exec(out: &mut Vec<char>, body: &[char], reserved: usize, budget: usize) -> (r: bool)
    requires
        reserved == reserved_len(),
    ensures
        match place_section(old(out)@, body@, budget as nat) {
            Some(o) => r && final(out)@ == o,
            None => !r && final(out)@ == old(out)@,
        },
{
    if sum_fits(out.len(), body.len(), reserved, 0, 0, 0, budget) {
        push_all(out, body);
        true
    } else {
        false
    }
}

fn place_pruned_exec(out: &mut Vec<char>, body: &[char], reserved: usize, budget: usize, note: &[char]) -> (r: bool)
    requires
        reserved == reserved_len(),
        note@ == pruned_note(),
    ensures
        match place_pruned(old(out)@, body@, budget as nat) {
            Some(o) => r && final(out)@ == o,
            None => !r && final(out)@ == old(out)@,
        },
{
    let ls = lines_chars(body);
    let ghost lv = vv(&ls);
    let dash = to_chars("- ");
    let nl = to_chars("\n");
    let mut cand: Vec<char> = Vec::new();
    let mut saw = false;
    let mut om = false;
    let mut k: usize = 0;
    while k < ls.len()
        invariant
            k <= ls@.len(),
            lv == vv(&ls),
            lv == lines(body@),
            reserved == reserved_len(),
            note@ == pruned_note(),
            dash@ == "- "@,
            nl@ == "\n"@,
            (cand@, saw, om) == pruned_fold(out@.len(), lv, k as int, budget as nat),
        decreases ls@.len() - k,
    {
        let l = &ls[k];
        assert(lv[k as int] == l@);
        assert(l@.subrange(0, l@.len() as int) =~= l@);
        proof {
            reveal_strlit("\n");
        }
        if !starts_with_at(l, 0, l.len(), &dash) {
            push_all(&mut cand, l);
            push_all(&mut cand, &nl);
        } else if sum_fits(out.len(), cand.len(), l.len(), 1, note.len(), reserved, budget) {
            push_all(&mut cand, l);
            push_all(&mut cand, &nl);
            saw = true;
        } else {
            saw = true;
            om = true;
        }
        k = k + 1;
    }
    if !saw {
        return false;
    }
    if om {
        push_all(&mut cand, note);
    }
    place_section_exec(out, &cand, reserved, budget)
}

fn is_required_exec(title: &[char], titles: &[String]) -> (r: bool)
    ensures
        r == is_required(title@, sv(titles@)),
{
    if crate::strs::eq_str(title, "Missing Required Evidence") {
        return true;
    }
    let mut i: usize = 0;
    while i < titles.len()
        invariant
            i <= titles@.len(),
            forall|j: int| 0 <= j < i ==> sv(titles@)[j] != title@,
        decreases titles@.len() - i,
    {
        if crate::strs::chars_eq(&to_chars(titles[i].as_str()), title) {
            assert(sv(titles@)[i as int] == title@);
            return true;
        }
        i = i + 1;
    }
    false
}

fn place_pass_exec(
    out: &mut Vec<char>,
    omitted: &mut bool,
    secs: &Vec<(Vec<char>, Vec<char>)>,
    Ghost(sv_secs): Ghost<Seq<(Seq<char>, Seq<char>)>>,
    titles: &[String],
    required: bool,
    reserved: usize,
    budget: usize,
    note: &[char],
)
    requires
        reserved == reserved_len(),
        note@ == pruned_note(),
        sv_secs.len() == secs@.len(),
        forall|k: int| 0 <= k < secs@.len() ==> (#[trigger] secs@[k]).0@ == sv_secs[k].0 && secs@[k].1@ == sv_secs[k].1,
    ensures
        (final(out)@, *final(omitted)) == place_pass(old(out)@, *old(omitted), sv_secs, sv(titles@), required, secs@.len() as int, budget as nat),
{
    let ghost out0 = out@;
    let ghost om0 = *omitted;
    let mut k: usize = 0;
    while k < secs.len()
        invariant
            k <= secs@.len(),
            reserved == reserved_len(),
            note@ == pruned_note(),
            sv_secs.len() == secs@.len(),
            forall|j: int| 0 <= j < secs@.len() ==> (#[trigger] secs@[j]).0@ == sv_secs[j].0 && secs@[j].1@ == sv_secs[j].1,
            (out@, *omitted) == place_pass(out0, om0, sv_secs, sv(titles@), required, k as int, budget as nat),
        decreases secs@.len() - k,
    {
        assert(secs@[k as int].0@ == sv_secs[k as int].0 && secs@[k as int].1@ == sv_secs[k as int].1);
        if is_required_exec(&secs[k].0, titles) == required {
            if !place_section_exec(out, &secs[k].1, reserved, budget) {
                if !place_pruned_exec(out, &secs[k].1, reserved, budget, note) {
                    *omitted = true;
                }
            }
        }
        k = k + 1;
    }
}

fn compact_floor_exec(mandatory: &[char], budget: usize) -> (r: Vec<char>)
    ensures
        r@ == compact_floor(mandatory@, budget as nat),
{
    let ls = lines_chars(mandatory);
    let title_line = match first_with_prefix_exec(&ls, &to_chars("# ")) {
        Some(k) => crate::strs::slice_copy(&ls[k], 0, ls[k].len()),
        None => to_chars("# Context"),
    };
    proof {
        match first_with_prefix(vv(&ls), "# "@) {
            Some(l) => assert(l.subrange(0, l.len() as int) =~= l),
            None => {},
        }
    }
    let mut prefix = to_chars("---\nmd_wiki_context:\n  budget_chars: ");
    push_all(&mut prefix, &decimal_chars(budget));
    push_all(&mut prefix, &to_chars("\n---\n"));
    let mut with_title = crate::strs::concat(&prefix, &title_line);
    push_all(&mut with_title, &to_chars("\n\n## Source Trail\n"));
    if with_title.len() <= budget {
        return with_title;
    }
    let mut without_title = crate::strs::concat(&prefix, &[]);
    assert(prefix@ + Seq::<char>::empty() =~= prefix@);
    push_all(&mut without_title, &to_chars("## Source Trail\n"));
    if without_title.len() <= budget {
        return without_title;
    }
    let bare = to_chars("---\nmd_wiki_context: {}\n---\n## Source Trail\n");
    if bare.len() <= budget {
        return bare;
    }
    slice_copy(&bare, 0, budget)
}

/// Cut a context pack down to `budget` characters. A pack that fits is kept
/// as it is. Otherwise the part before the first section is kept, then the
/// required sections (and the missing-evidence list), then the others, each
/// whole or with its evidence pruned while room is kept for the closing
/// parts; then a note if a section had to go, the source-trail heading and
/// as many trail lines as fit, with a note when some did not. When not even
/// that fits, a compact header with the budget stands in for the pack.
pub fn enforce_budget(pack: String, budget: usize, required_section_titles: &[String]) -> (r: String)
    ensures
        r@ == budgeted(pack@, budget as nat, sv(required_section_titles@)),
        r@.len() <= budget,
{
    proof {
        lemma_budgeted_within_budget(pack@, budget as nat, sv(required_section_titles@));
    }
    if pack.unicode_len() <= budget {
        return pack;
    }
    let p = to_chars(pack.as_str());
    let h = to_chars("\n## Source Trail\n\n");
    let mark = to_chars("\n## ");
    let om_text = to_chars("\n\nOmitted due to budget.\n");
    let trail = to_chars("- Omitted due to budget.\n");
    let note = to_chars("- Omitted due to budget; see Source Trail.\n");
    proof {
        reveal_strlit("\n## Source Trail\n\n");
        reveal_strlit("\n## ");
        reveal_strlit("\n\nOmitted due to budget.\n");
        reveal_strlit("- Omitted due to budget.\n");
    }
    let reserved = om_text.len() + h.len() + trail.len();
    let found = find_from_exec(&p, &h, 0);
    let source_start = match found {
        Some(i) => i,
        None => p.len(),
    };
    proof {
        lemma_find_from(p@, h@, 0);
    }
    let head = slice_copy(&p, 0, source_start);
    assert(p@.subrange(0, source_start as int) =~= p@.take(source_start as int));
    let prefix_end = match find_from_exec(&head, &mark, 0) {
        Some(i) => i,
        None => source_start,
    };
    proof {
        lemma_find_from(head@, mark@, 0);
    }
    let mandatory = slice_copy(&p, 0, prefix_end);
    assert(p@.subrange(0, prefix_end as int) =~= p@.take(prefix_end as int));
    let pre = slice_copy(&p, prefix_end, source_start);
    let secs = markdown_sections(&pre);
    let ghost secs_v = sections_of(pre@);
    let source_body = match found {
        Some(i) => slice_copy(&p, i + h.len(), p.len()),
        None => Vec::new(),
    };
    proof {
        match found {
            Some(i) => assert(p@.subrange(i + h@.len(), p@.len() as int) =~= p@.skip(i + h@.len())),
            None => assert(source_body@ =~= Seq::<char>::empty()),
        }
    }
    let mut out = slice_copy(&mandatory, 0, mandatory.len());
    assert(mandatory@.subrange(0, mandatory@.len() as int) =~= mandatory@);
    let mut omitted = false;
    place_pass_exec(&mut out, &mut omitted, &secs, Ghost(secs_v), required_section_titles, true, reserved, budget, &note);
    place_pass_exec(&mut out, &mut omitted, &secs, Ghost(secs_v), required_section_titles, false, reserved, budget, &note);
    if omitted && sum_fits(out.len(), reserved, 0, 0, 0, 0, budget) {
        push_all(&mut out, &om_text);
    }
    push_all(&mut out, &h);
    if !sum_fits(out.len(), trail.len(), 0, 0, 0, 0, budget) {
        return from_chars(&compact_floor_exec(&mandatory, budget));
    }
    let ls = lines_chars(&source_body);
    let ghost lv = vv(&ls);
    let ghost o4 = out@;
    let nl = to_chars("\n");
    let mut k: usize = 0;
    assert(lv.skip(0) =~= lv);
    loop
        invariant
            k <= ls@.len(),
            lv == vv(&ls),
            trail@ == trail_omitted(),
            nl@ == "\n"@,
            fill(o4, lv, budget as nat) == (fill(out@, lv.skip(k as int), budget as nat).0, (fill(out@, lv.skip(k as int), budget as nat).1 + k) as nat),
        ensures
            k <= ls@.len(),
            fill(o4, lv, budget as nat) == (out@, k as nat),
        decreases ls@.len() - k,
    {
        let ghost rest = lv.skip(k as int);
        if k >= ls.len() {
            assert(rest =~= Seq::<Seq<char>>::empty());
            break;
        }
        assert(rest[0] == ls@[k as int]@);
        if !sum_fits(out.len(), ls[k].len(), 1, trail.len(), 0, 0, budget) {
            break;
        }
        push_all(&mut out, &ls[k]);
        push_all(&mut out, &nl);
        assert(rest.drop_first() =~= lv.skip(k + 1));
        proof {
            reveal_strlit("\n");
        }
        k = k + 1;
    }
    if k == 0 || k < ls.len() {
        push_all(&mut out, &trail);
    }
    from_chars(&out)
}

} // verus!
