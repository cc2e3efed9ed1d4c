//! `[[wikilink]]` syntax: finding links in a body and reading their parts.
//!
//! A link is `!`, optionally, then `[[`, a non-empty run of characters other
//! than `[`, `]` and line feed, then `]]`. Lines are scanned left to right and
//! a link starts at the leftmost place where one can; lines inside fenced code
//! blocks are skipped. Ranges are byte offsets into the body.
use vstd::prelude::*;
use std::ops::Range;
use crate::notes::headings::{is_fence, is_fence_chars};
use crate::strs::{
    byte_len, byte_len_fits, find_char, first_index_of, lemma_byte_len_prefix,
    lemma_first_index_bounds, push_all, push_string, slice_copy, from_chars, sv, to_chars, trim, trim_idx,
};
use crate::paths::{relative, relative_link};
use crate::link::resolver::{resolve_heading_spec, Resolution, ResolutionV, Resolver, TargetV, UnresolvedLink};

verus! {

/// One wikilink: `![[target#heading|alias]]`.
#[derive(Debug, Clone, PartialEq, Eq)]
pub struct WikiLink {
    pub embed: bool,
    pub target: String,
    pub heading: Option<String>,
    pub alias: Option<String>,
}

pub open spec fn opt_view(o: Option<String>) -> Option<Seq<char>> {
    match o {
        Some(s) => Some(s@),
        None => None,
    }
}

impl View for WikiLink {
    type V = (bool, Seq<char>, Option<Seq<char>>, Option<Seq<char>>);

    open spec fn view(&self) -> Self::V {
        (self.embed, self.target@, opt_view(self.heading), opt_view(self.alias))
    }
}

// ---------------------------------------------------------------------------
// Specification
// ---------------------------------------------------------------------------

pub open spec fn is_content_char(c: char) -> bool {
    c != '[' && c != ']' && c != '\n'
}

/// End of the run of content characters of `line` from `q`.
pub open spec fn content_end(line: Seq<char>, q: int) -> int
    decreases line.len() - q,
{
    if 0 <= q < line.len() && is_content_char(line[q]) {
        content_end(line, q + 1)
    } else {
        q
    }
}

pub proof fn lemma_content_end(line: Seq<char>, q: int)
    requires
        0 <= q <= line.len(),
    ensures
        q <= content_end(line, q) <= line.len(),
        content_end(line, q) < line.len() ==> !is_content_char(line[content_end(line, q)]),
        forall|k: int| q <= k < content_end(line, q) ==> is_content_char(#[trigger] line[k]),
    decreases line.len() - q,
{
    if q < line.len() && is_content_char(line[q]) {
        lemma_content_end(line, q + 1);
    }
}

/// `[[content]]` at `p`: the end of its content.
pub open spec fn brackets_at(line: Seq<char>, p: int) -> Option<int> {
    if 0 <= p && p + 2 <= line.len() && line[p] == '[' && line[p + 1] == '[' {
        let e = content_end(line, p + 2);
        if e > p + 2 && e + 2 <= line.len() && line[e] == ']' && line[e + 1] == ']' {
            Some(e)
        } else {
            None
        }
    } else {
        None
    }
}

/// A link starting at `p`: content start, content end, embed.
pub open spec fn match_at(line: Seq<char>, p: int) -> Option<(int, int, bool)> {
    if 0 <= p < line.len() && line[p] == '!' && brackets_at(line, p + 1) is Some {
        Some((p + 3, brackets_at(line, p + 1)->0, true))
    } else {
        match brackets_at(line, p) {
            Some(e) => Some((p + 2, e, false)),
            None => None,
        }
    }
}

pub proof fn lemma_match_at(line: Seq<char>, p: int)
    requires
        0 <= p <= line.len(),
    ensures
        match_at(line, p) matches Some((cs, ce, _)) ==> p + 2 <= cs < ce && ce + 2 <= line.len(),
{
    if p + 2 <= line.len() {
        lemma_content_end(line, p + 2);
    }
    if p + 3 <= line.len() {
        lemma_content_end(line, p + 3);
    }
}

/// The links of `line` from position `p`: start, end, embed, content.
pub open spec fn line_links(line: Seq<char>, p: int) -> Seq<(int, int, bool, Seq<char>)>
    decreases line.len() - p,
{
    if p < 0 || p >= line.len() {
        seq![]
    } else {
        match match_at(line, p) {
            Some((cs, ce, emb)) => {
                proof {
                    lemma_match_at(line, p);
                }
                seq![(p, ce + 2, emb, line.subrange(cs, ce))] + line_links(line, ce + 2)
            },
            None => line_links(line, p + 1),
        }
    }
}

/// `str::split_inclusive('\n')`.
pub open spec fn lines_incl(s: Seq<char>) -> Seq<Seq<char>>
    decreases s.len(),
{
    if s.len() == 0 {
        seq![]
    } else {
        let j = first_index_of(s, '\n');
        if j >= s.len() {
            seq![s]
        } else {
            proof {
                lemma_first_index_bounds(s, '\n');
            }
            seq![s.take(j + 1)] + lines_incl(s.skip(j + 1))
        }
    }
}

/// The parts of a link's content: target, heading after the first `#`,
/// alias after the first `|`; each trimmed.
pub open spec fn parse_content_spec(s: Seq<char>, embed: bool) -> (bool, Seq<char>, Option<Seq<char>>, Option<Seq<char>>) {
    let pi = first_index_of(s, '|');
    let before = if pi < s.len() { s.take(pi) } else { s };
    let alias = if pi < s.len() { Some(trim(s.skip(pi + 1))) } else { None };
    let hi = first_index_of(before, '#');
    if hi < before.len() {
        (embed, trim(before.take(hi)), Some(trim(before.skip(hi + 1))), alias)
    } else {
        (embed, trim(before), None, alias)
    }
}

/// A found link: range and parts.
pub type FoundLink = (int, int, (bool, Seq<char>, Option<Seq<char>>, Option<Seq<char>>));

/// The links of one line, with character offsets (the line starting at `off`).
pub open spec fn placed(ms: Seq<(int, int, bool, Seq<char>)>, off: int) -> Seq<FoundLink> {
    ms.map_values(|m: (int, int, bool, Seq<char>)| (off + m.0, off + m.1, parse_content_spec(m.3, m.2)))
}

/// The links of the lines `ls` (starting at character `off`), skipping fenced code.
pub open spec fn links_in(ls: Seq<Seq<char>>, in_fence: bool, off: int) -> Seq<FoundLink>
    decreases ls.len(),
{
    if ls.len() == 0 {
        seq![]
    } else if is_fence(ls[0]) {
        links_in(ls.drop_first(), !in_fence, off + ls[0].len())
    } else if in_fence {
        links_in(ls.drop_first(), in_fence, off + ls[0].len())
    } else {
        placed(line_links(ls[0], 0), off) + links_in(ls.drop_first(), in_fence, off + ls[0].len())
    }
}

/// All links of a body, in order, with character ranges.
pub open spec fn find_links_spec(body: Seq<char>) -> Seq<FoundLink> {
    links_in(lines_incl(body), false, 0)
}

/// All links of a body, in order, with byte ranges.
pub open spec fn find_all_spec(body: Seq<char>) -> Seq<FoundLink> {
    find_links_spec(body).map_values(|x: FoundLink| (byte_len(body.take(x.0)) as int, byte_len(body.take(x.1)) as int, x.2))
}

/// Char ranges of links found, as values.
pub open spec fn chars_view(v: Seq<(usize, usize, WikiLink)>) -> Seq<FoundLink> {
    v.map_values(|x: (usize, usize, WikiLink)| (x.0 as int, x.1 as int, x.2@))
}

pub proof fn lemma_total_len_nonneg(ls: Seq<Seq<char>>)
    ensures
        total_len(ls) >= 0,
    decreases ls.len(),
{
    if ls.len() > 0 {
        lemma_total_len_nonneg(ls.drop_first());
    }
}

/// The lengths of lines add up.
pub open spec fn total_len(ls: Seq<Seq<char>>) -> int
    decreases ls.len(),
{
    if ls.len() == 0 {
        0
    } else {
        ls[0].len() + total_len(ls.drop_first())
    }
}

pub proof fn lemma_lines_incl_len(s: Seq<char>)
    ensures
        total_len(lines_incl(s)) == s.len(),
    decreases s.len(),
{
    if s.len() > 0 {
        lemma_first_index_bounds(s, '\n');
        let j = first_index_of(s, '\n');
        if j < s.len() {
            lemma_lines_incl_len(s.skip(j + 1));
            assert(lines_incl(s).drop_first() =~= lines_incl(s.skip(j + 1)));
        } else {
            assert(lines_incl(s).drop_first() =~= Seq::<Seq<char>>::empty());
            assert(total_len(Seq::<Seq<char>>::empty()) == 0);
        }
    }
}

/// Ranges within one line lie in it, in order, without overlap.
pub open spec fn ranges_ok(r: Seq<FoundLink>, lo: int, hi: int) -> bool {
    &&& forall|k: int| 0 <= k < r.len() ==> lo <= (#[trigger] r[k]).0 && r[k].0 < r[k].1 && r[k].1 <= hi
    &&& forall|k: int| 0 <= k < r.len() - 1 ==> (#[trigger] r[k]).1 <= r[k + 1].0
}

pub proof fn lemma_line_links_bounds(line: Seq<char>, p: int)
    requires
        0 <= p,
    ensures
        ranges_ok(placed(line_links(line, p), 0), p, line.len() as int),
    decreases line.len() - p,
{
    if p < line.len() {
        lemma_match_at(line, p);
        match match_at(line, p) {
            Some((cs, ce, emb)) => {
                lemma_line_links_bounds(line, ce + 2);
                let rest = placed(line_links(line, ce + 2), 0);
                let all = placed(line_links(line, p), 0);
                assert(line_links(line, p) == seq![(p, ce + 2, emb, line.subrange(cs, ce))] + line_links(line, ce + 2));
                assert(all =~= seq![all[0]] + rest);
                assert forall|k: int| 0 <= k < all.len() - 1 implies (#[trigger] all[k]).1 <= all[k + 1].0 by {
                    if k > 0 {
                        assert(all[k] == rest[k - 1]);
                        assert(all[k + 1] == rest[k]);
                    } else if rest.len() > 0 {
                        assert(all[1] == rest[0]);
                    }
                }
                assert forall|k: int| 0 <= k < all.len() implies p <= (#[trigger] all[k]).0 && all[k].0 < all[k].1 && all[k].1 <= line.len() by {
                    if k > 0 {
                        assert(all[k] == rest[k - 1]);
                    }
                }
            },
            None => {
                lemma_line_links_bounds(line, p + 1);
            },
        }
    }
}

proof fn lemma_placed_shift(ms: Seq<(int, int, bool, Seq<char>)>, off: int, lo: int, hi: int)
    requires
        ranges_ok(placed(ms, 0), lo, hi),
    ensures
        ranges_ok(placed(ms, off), off + lo, off + hi),
{
    let a = placed(ms, 0);
    let b = placed(ms, off);
    assert forall|k: int| 0 <= k < b.len() implies off + lo <= (#[trigger] b[k]).0 && b[k].0 < b[k].1 && b[k].1 <= off + hi by {
        assert(a[k].0 == ms[k].0);
    }
    assert forall|k: int| 0 <= k < b.len() - 1 implies (#[trigger] b[k]).1 <= b[k + 1].0 by {
        assert(a[k].1 == ms[k].1);
        assert(a[k + 1].0 == ms[k + 1].0);
    }
}

proof fn lemma_ranges_concat(a: Seq<FoundLink>, b: Seq<FoundLink>, lo: int, mid: int, hi: int)
    requires
        ranges_ok(a, lo, mid),
        ranges_ok(b, mid, hi),
        lo <= mid <= hi,
    ensures
        ranges_ok(a + b, lo, hi),
{
    let c = a + b;
    assert forall|k: int| 0 <= k < c.len() implies lo <= (#[trigger] c[k]).0 && c[k].0 < c[k].1 && c[k].1 <= hi by {
        if k < a.len() {
            assert(c[k] == a[k]);
        } else {
            assert(c[k] == b[k - a.len()]);
        }
    }
    assert forall|k: int| 0 <= k < c.len() - 1 implies (#[trigger] c[k]).1 <= c[k + 1].0 by {
        if k < a.len() - 1 {
            assert(c[k] == a[k]);
            assert(c[k + 1] == a[k + 1]);
        } else if k == a.len() - 1 {
            assert(c[k] == a[k]);
            assert(c[k + 1] == b[0]);
        } else {
            assert(c[k] == b[k - a.len()]);
            assert(c[k + 1] == b[k + 1 - a.len()]);
        }
    }
}

pub proof fn lemma_links_in_bounds(ls: Seq<Seq<char>>, in_fence: bool, off: int)
    ensures
        ranges_ok(links_in(ls, in_fence, off), off, off + total_len(ls)),
    decreases ls.len(),
{
    if ls.len() > 0 {
        lemma_total_len_nonneg(ls.drop_first());
        let next = off + ls[0].len();
        if is_fence(ls[0]) {
            lemma_links_in_bounds(ls.drop_first(), !in_fence, next);
            lemma_ranges_concat(Seq::<FoundLink>::empty(), links_in(ls.drop_first(), !in_fence, next), off, next, off + total_len(ls));
            assert(Seq::<FoundLink>::empty() + links_in(ls.drop_first(), !in_fence, next) =~= links_in(ls.drop_first(), !in_fence, next));
        } else if in_fence {
            lemma_links_in_bounds(ls.drop_first(), in_fence, next);
            lemma_ranges_concat(Seq::<FoundLink>::empty(), links_in(ls.drop_first(), in_fence, next), off, next, off + total_len(ls));
            assert(Seq::<FoundLink>::empty() + links_in(ls.drop_first(), in_fence, next) =~= links_in(ls.drop_first(), in_fence, next));
        } else {
            lemma_links_in_bounds(ls.drop_first(), in_fence, next);
            lemma_line_links_bounds(ls[0], 0);
            lemma_placed_shift(line_links(ls[0], 0), off, 0, ls[0].len() as int);
            lemma_ranges_concat(placed(line_links(ls[0], 0), off), links_in(ls.drop_first(), in_fence, next), off, next, off + total_len(ls));
        }
    }
}

/// The ranges of the links of a body lie in it, in order, without overlap.
pub proof fn lemma_find_links_bounds(body: Seq<char>)
    ensures
        ranges_ok(find_links_spec(body), 0, body.len() as int),
{
    lemma_links_in_bounds(lines_incl(body), false, 0);
    lemma_lines_incl_len(body);
}


// ---------------------------------------------------------------------------
// Execution
// ---------------------------------------------------------------------------

fn content_end_exec(v: &[char], lo: usize, hi: usize, q: usize) -> (e: usize)
    requires
        lo <= q <= hi <= v@.len(),
    ensures
        e as int - lo == content_end(v@.subrange(lo as int, hi as int), q - lo),
        q <= e <= hi,
{
    let ghost line = v@.subrange(lo as int, hi as int);
    let mut i = q;
    while i < hi && v[i] != '[' && v[i] != ']' && v[i] != '\n'
        invariant
            lo <= q <= i <= hi <= v@.len(),
            line == v@.subrange(lo as int, hi as int),
            content_end(line, q - lo) == content_end(line, i - lo),
        decreases hi - i,
    {
        assert(line[i - lo] == v@[i as int]);
        i = i + 1;
    }
    proof {
        if i < hi {
            assert(line[i - lo] == v@[i as int]);
        }
    }
    i
}

fn brackets_at_exec(v: &[char], lo: usize, hi: usize, p: usize) -> (r: Option<usize>)
    requires
        lo <= p <= hi <= v@.len(),
    ensures
        match brackets_at(v@.subrange(lo as int, hi as int), p - lo) {
            Some(e) => r matches Some(x) && x as int - lo == e,
            None => r is None,
        },
{
    let ghost line = v@.subrange(lo as int, hi as int);
    if hi - p >= 2 && v[p] == '[' && v[p + 1] == '[' {
        assert(line[p - lo] == v@[p as int] && line[p + 1 - lo] == v@[p + 1]);
        let e = content_end_exec(v, lo, hi, p + 2);
        if e > p + 2 && hi - e >= 2 && v[e] == ']' && v[e + 1] == ']' {
            assert(line[e - lo] == v@[e as int] && line[e + 1 - lo] == v@[e + 1]);
            Some(e)
        } else {
            proof {
                if e + 2 <= hi {
                    assert(line[e - lo] == v@[e as int] && line[e + 1 - lo] == v@[e + 1]);
                }
            }
            None
        }
    } else {
        proof {
            if p + 2 <= hi {
                assert(line[p - lo] == v@[p as int] && line[p + 1 - lo] == v@[p + 1]);
            }
        }
        None
    }
}

fn match_at_exec(v: &[char], lo: usize, hi: usize, p: usize) -> (r: Option<(usize, usize, bool)>)
    requires
        lo <= p < hi <= v@.len(),
    ensures
        match match_at(v@.subrange(lo as int, hi as int), p - lo) {
            Some((cs, ce, emb)) => r matches Some((a, b, e)) && a as int - lo == cs && b as int - lo == ce && e == emb,
            None => r is None,
        },
{
    let ghost line = v@.subrange(lo as int, hi as int);
    assert(line[p - lo] == v@[p as int]);
    if v[p] == '!' {
        match brackets_at_exec(v, lo, hi, p + 1) {
            Some(e) => {
                return Some((p + 3, e, true));
            },
            None => {},
        }
    }
    match brackets_at_exec(v, lo, hi, p) {
        Some(e) => Some((p + 2, e, false)),
        None => None,
    }
}

/// The parts of a link's content.
fn parse_content(v: &[char], lo: usize, hi: usize, embed: bool) -> (w: WikiLink)
    requires
        lo <= hi <= v@.len(),
    ensures
        w@ == parse_content_spec(v@.subrange(lo as int, hi as int), embed),
{
    let ghost s = v@.subrange(lo as int, hi as int);
    let pi = find_char(v, lo, hi, '|');
    proof {
        lemma_first_index_bounds(s, '|');
    }
    let alias = if pi < hi {
        let (a, b) = trim_idx(v, pi + 1, hi);
        assert(s.skip(pi - lo + 1) =~= v@.subrange(pi + 1, hi as int));
        Some(from_chars(&slice_copy(v, a, b)))
    } else {
        None
    };
    let bend = pi;
    let ghost before = if pi < hi { s.take(pi - lo) } else { s };
    assert(before =~= v@.subrange(lo as int, bend as int));
    let hix = find_char(v, lo, bend, '#');
    proof {
        lemma_first_index_bounds(before, '#');
    }
    if hix < bend {
        let (a, b) = trim_idx(v, lo, hix);
        let (c, d) = trim_idx(v, hix + 1, bend);
        assert(before.take(hix - lo) =~= v@.subrange(lo as int, hix as int));
        assert(before.skip(hix - lo + 1) =~= v@.subrange(hix + 1, bend as int));
        WikiLink {
            embed,
            target: from_chars(&slice_copy(v, a, b)),
            heading: Some(from_chars(&slice_copy(v, c, d))),
            alias,
        }
    } else {
        let (a, b) = trim_idx(v, lo, bend);
        WikiLink { embed, target: from_chars(&slice_copy(v, a, b)), heading: None, alias }
    }
}

proof fn lemma_line_links_skip(line: Seq<char>, p: int)
    requires
        0 <= p < line.len(),
        match_at(line, p) is None,
    ensures
        line_links(line, p) == line_links(line, p + 1),
{
}

/// The links of `v[lo..hi]`, pushed onto `out` with positions in `v`.
#[verifier::rlimit(40)]
fn scan_line(v: &[char], lo: usize, hi: usize, out: &mut Vec<(usize, usize, WikiLink)>)
    requires
        lo <= hi <= v@.len(),
    ensures
        chars_view(final(out)@) == chars_view(old(out)@) + placed(
            line_links(v@.subrange(lo as int, hi as int), 0),
            lo as int,
        ),
{
    let ghost line = v@.subrange(lo as int, hi as int);
    let ghost start = chars_view(out@);
    let mut p = lo;
    while p < hi
        invariant
            lo <= p <= hi <= v@.len(),
            line == v@.subrange(lo as int, hi as int),
            chars_view(out@) + placed(line_links(line, p - lo), lo as int)
                == start + placed(line_links(line, 0), lo as int),
        decreases hi - p,
    {
        proof {
            lemma_match_at(line, p - lo);
        }
        match match_at_exec(v, lo, hi, p) {
            Some((cs, ce, emb)) => {
                let link = parse_content(v, cs, ce, emb);
                proof {
                    assert(line.subrange(cs - lo, ce - lo) =~= v@.subrange(cs as int, ce as int));
                }
                let ghost before = out@;
                out.push((p, ce + 2, link));
                proof {
                    let ms = line_links(line, p - lo);
                    let m0 = (p - lo, ce + 2 - lo, emb, line.subrange(cs - lo, ce - lo));
                    assert(ms == seq![m0] + line_links(line, ce + 2 - lo));
                    assert(placed(ms, lo as int) =~= seq![placed(seq![m0], lo as int)[0]]
                        + placed(line_links(line, ce + 2 - lo), lo as int));
                    assert(chars_view(out@) =~= chars_view(before).push((p as int, ce + 2, link@)));
                    assert(placed(seq![m0], lo as int)[0] == (p as int, ce + 2, link@));
                    assert(chars_view(out@) + placed(line_links(line, ce + 2 - lo), lo as int)
                        =~= chars_view(before) + placed(ms, lo as int));
                }
                p = ce + 2;
            },
            None => {
                proof {
                    lemma_line_links_skip(line, p - lo);
                }
                p = p + 1;
            },
        }
    }
    proof {
        assert(line_links(line, p - lo) =~= Seq::<(int, int, bool, Seq<char>)>::empty());
        assert(placed(Seq::<(int, int, bool, Seq<char>)>::empty(), lo as int) =~= Seq::<FoundLink>::empty());
        assert(chars_view(out@) + Seq::<FoundLink>::empty() =~= chars_view(out@));
    }
}

/// The links of a body as characters, with character ranges.
#[verifier::rlimit(40)]
pub fn find_links(v: &[char]) -> (r: Vec<(usize, usize, WikiLink)>)
    ensures
        chars_view(r@) == find_links_spec(v@),
{
    let mut out: Vec<(usize, usize, WikiLink)> = Vec::new();
    let mut pos: usize = 0;
    let mut in_fence = false;
    assert(v@.skip(0) =~= v@);
    while pos < v.len()
        invariant
            pos <= v@.len(),
            chars_view(out@) + links_in(lines_incl(v@.skip(pos as int)), in_fence, pos as int)
                == find_links_spec(v@),
        decreases v@.len() - pos,
    {
        let ghost rest = v@.skip(pos as int);
        let nl = find_char(v, pos, v.len(), '\n');
        proof {
            lemma_first_index_bounds(rest, '\n');
            assert(v@.subrange(pos as int, v@.len() as int) =~= rest);
        }
        let end = if nl < v.len() { nl + 1 } else { v.len() };
        let ghost line = v@.subrange(pos as int, end as int);
        proof {
            if nl < v.len() {
                assert(rest.take(nl - pos + 1) =~= line);
                assert(rest.skip(nl - pos + 1) =~= v@.skip(end as int));
                assert(lines_incl(rest) == seq![line] + lines_incl(v@.skip(end as int)));
            } else {
                assert(rest =~= line);
                assert(v@.skip(end as int) =~= Seq::<char>::empty());
                assert(lines_incl(rest) == seq![line]);
                assert(lines_incl(v@.skip(end as int)) =~= Seq::<Seq<char>>::empty());
                assert(seq![line] =~= seq![line] + lines_incl(v@.skip(end as int)));
            }
            assert(lines_incl(rest).drop_first() =~= lines_incl(v@.skip(end as int)));
        }
        let ghost fence_before = in_fence;
        let ghost before = chars_view(out@);
        if is_fence_chars(v, pos, end) {
            in_fence = !in_fence;
        } else if !in_fence {
            scan_line(v, pos, end, &mut out);
            proof {
                assert(chars_view(out@) + links_in(lines_incl(v@.skip(end as int)), in_fence, end as int)
                    =~= before + links_in(lines_incl(rest), fence_before, pos as int));
            }
        }
        pos = end;
    }
    proof {
        assert(v@.skip(pos as int) =~= Seq::<char>::empty());
        assert(lines_incl(v@.skip(pos as int)) =~= Seq::<Seq<char>>::empty());
        assert(chars_view(out@) + Seq::<FoundLink>::empty() =~= chars_view(out@));
    }
    out
}

fn copy_opt(o: &Option<String>) -> (r: Option<String>)
    ensures
        opt_view(r) == opt_view(*o),
{
    match o {
        Some(x) => Some(x.clone()),
        None => None,
    }
}

/// A copy of a link.
pub fn copy_link(w: &WikiLink) -> (r: WikiLink)
    ensures
        r@ == w@,
{
    WikiLink { embed: w.embed, target: w.target.clone(), heading: copy_opt(&w.heading), alias: copy_opt(&w.alias) }
}

/// `r[k]` is the byte length of `v[..k]`, for every `k` up to `v.len()`.
fn byte_prefix(v: &[char]) -> (r: Vec<usize>)
    requires
        byte_len(v@) <= usize::MAX,
    ensures
        r@.len() == v@.len() + 1,
        forall|k: int| 0 <= k <= v@.len() ==> r@[k] == byte_len(#[trigger] v@.take(k)),
{
    let mut r: Vec<usize> = Vec::new();
    r.push(0);
    assert(v@.take(0) =~= Seq::<char>::empty());
    let mut i: usize = 0;
    while i < v.len()
        invariant
            i <= v@.len(),
            byte_len(v@) <= usize::MAX,
            r@.len() == i + 1,
            forall|k: int| 0 <= k <= i ==> r@[k] == byte_len(#[trigger] v@.take(k)),
        decreases v@.len() - i,
    {
        proof {
            crate::strs::lemma_byte_len_take(v@, i as int);
            lemma_byte_len_prefix(v@, i + 1);
        }
        let b = r[i] + crate::strs::char_len8_exec(v[i]);
        r.push(b);
        i = i + 1;
    }
    r
}

/// All wikilinks of a body, with byte ranges; those inside ``` or ~~~ fenced
/// code blocks are passed over.
pub fn find_all(body: &str) -> (r: Vec<(Range<usize>, WikiLink)>)
    ensures
        r@.len() == find_all_spec(body@).len(),
        forall|k: int| #![trigger r@[k]] 0 <= k < r@.len() ==>
            (r@[k].0.start as int, r@[k].0.end as int, r@[k].1@) == find_all_spec(body@)[k],
{
    byte_len_fits(body);
    let v = to_chars(body);
    let links = find_links(&v);
    let pre = byte_prefix(&v);
    proof {
        lemma_find_links_bounds(v@);
    }
    let ghost fl = find_links_spec(v@);
    let mut out: Vec<(Range<usize>, WikiLink)> = Vec::new();
    let mut i: usize = 0;
    while i < links.len()
        invariant
            v@ == body@,
            chars_view(links@) == fl,
            fl == find_links_spec(body@),
            ranges_ok(fl, 0, v@.len() as int),
            pre@.len() == v@.len() + 1,
            forall|k: int| 0 <= k <= v@.len() ==> pre@[k] == byte_len(#[trigger] v@.take(k)),
            i <= links@.len(),
            out@.len() == i,
            forall|k: int| #![trigger out@[k]] 0 <= k < i ==>
                (out@[k].0.start as int, out@[k].0.end as int, out@[k].1@) == find_all_spec(body@)[k],
        decreases links@.len() - i,
    {
        let s = links[i].0;
        let e = links[i].1;
        assert(fl[i as int] == (s as int, e as int, links@[i as int].2@));
        assert(fl[i as int] == fl[i as int]);
        let w = copy_link(&links[i].2);
        assert(pre@[s as int] == byte_len(v@.take(s as int)));
        assert(pre@[e as int] == byte_len(v@.take(e as int)));
        let item = (pre[s]..pre[e], w);
        let ghost before = out@;
        out.push(item);
        proof {
            assert forall|k: int| #![trigger out@[k]] 0 <= k < i + 1 implies
                (out@[k].0.start as int, out@[k].0.end as int, out@[k].1@) == find_all_spec(body@)[k] by {
                if k < i {
                    assert(out@[k] == before[k]);
                } else {
                    assert(out@[k] == item);
                }
            }
        }
        i = i + 1;
    }
    out
}

// ---------------------------------------------------------------------------
// Rewriting links
// ---------------------------------------------------------------------------

/// The link to `to` relative to the page `from` (both output-relative).
pub fn render_relative(from: &str, to: &str) -> (r: String)
    ensures
        r@ == relative(from@, to@),
{
    relative_link(from, to)
}

/// The text a resolved link shows: its alias, else `target#heading`, else its target.
pub open spec fn display_of(l: (bool, Seq<char>, Option<Seq<char>>, Option<Seq<char>>)) -> Seq<char> {
    match l.3 {
        Some(a) => a,
        None => match l.2 {
            Some(h) => l.1 + seq!['#'] + h,
            None => l.1,
        },
    }
}

/// `[display](link)`.
pub open spec fn md_link(display: Seq<char>, link: Seq<char>) -> Seq<char> {
    seq!['['] + display + seq![']', '('] + link + seq![')']
}

pub open spec fn unresolved_mark() -> Seq<char> {
    " (未解決)"@
}

/// What a found link becomes.
pub open spec fn replacement(body: Seq<char>, f: FoundLink, res: ResolutionV, from: Seq<char>) -> Seq<char> {
    match res {
        ResolutionV::Entry(p) => md_link(display_of(f.2), relative(from, p)),
        ResolutionV::Page(p) => md_link(display_of(f.2), relative(from, p)),
        ResolutionV::EntryAnchor(p, s) => md_link(display_of(f.2), relative(from, p) + seq!['#'] + s),
        ResolutionV::Missing => body.subrange(f.0, f.1) + unresolved_mark(),
    }
}

pub open spec fn outcome(ts: Seq<TargetV>, f: FoundLink, anchor: Seq<char>) -> ResolutionV {
    resolve_heading_spec(ts, f.2.1, f.2.2, anchor)
}

/// The body from `cur` on, with each of `links` replaced.
pub open spec fn rewrite(body: Seq<char>, links: Seq<FoundLink>, cur: int, ts: Seq<TargetV>, from: Seq<char>, anchor: Seq<char>) -> Seq<char>
    decreases links.len(),
{
    if links.len() == 0 {
        body.subrange(cur, body.len() as int)
    } else {
        body.subrange(cur, links[0].0) + replacement(body, links[0], outcome(ts, links[0], anchor), from)
            + rewrite(body, links.drop_first(), links[0].1, ts, from, anchor)
    }
}

/// The page a resolution points to, if any.
pub open spec fn edge_of(res: ResolutionV) -> Option<Seq<char>> {
    match res {
        ResolutionV::Entry(p) => Some(p),
        ResolutionV::Page(p) => Some(p),
        ResolutionV::EntryAnchor(p, _) => Some(p),
        ResolutionV::Missing => None,
    }
}

/// The pages the resolved links point to, in body order.
pub open spec fn edges_of(links: Seq<FoundLink>, ts: Seq<TargetV>, anchor: Seq<char>) -> Seq<Seq<char>>
    decreases links.len(),
{
    if links.len() == 0 {
        seq![]
    } else {
        match edge_of(outcome(ts, links[0], anchor)) {
            Some(p) => seq![p] + edges_of(links.drop_first(), ts, anchor),
            None => edges_of(links.drop_first(), ts, anchor),
        }
    }
}

pub type UnresolvedV = (Seq<char>, Seq<char>, Option<Seq<char>>, Option<Seq<char>>);

pub open spec fn unresolved_view(u: UnresolvedLink) -> UnresolvedV {
    (u.source@, u.target@, opt_view(u.heading), opt_view(u.alias))
}

/// The links that resolve to nothing, in body order.
pub open spec fn missing_of(links: Seq<FoundLink>, ts: Seq<TargetV>, from: Seq<char>, anchor: Seq<char>) -> Seq<UnresolvedV>
    decreases links.len(),
{
    if links.len() == 0 {
        seq![]
    } else if outcome(ts, links[0], anchor) is Missing {
        seq![(from, links[0].2.1, links[0].2.2, links[0].2.3)] + missing_of(links.drop_first(), ts, from, anchor)
    } else {
        missing_of(links.drop_first(), ts, from, anchor)
    }
}

fn display_exec(w: &WikiLink) -> (r: Vec<char>)
    ensures
        r@ == display_of(w@),
{
    match &w.alias {
        Some(a) => to_chars(a.as_str()),
        None => match &w.heading {
            Some(h) => {
                let mut v = to_chars(w.target.as_str());
                v.push('#');
                push_all(&mut v, &to_chars(h.as_str()));
                v
            },
            None => to_chars(w.target.as_str()),
        },
    }
}

fn push_md_link(out: &mut Vec<char>, display: &[char], link: &[char])
    ensures
        final(out)@ == old(out)@ + md_link(display@, link@),
{
    out.push('[');
    push_all(out, display);
    out.push(']');
    out.push('(');
    push_all(out, link);
    out.push(')');
    assert(final(out)@ =~= old(out)@ + md_link(display@, link@));
}

fn opt_str_ref(o: &Option<String>) -> (r: Option<&str>)
    ensures
        match r { Some(h) => Some(h@), None => None::<Seq<char>> } == opt_view(*o),
{
    match o {
        Some(h) => Some(h.as_str()),
        None => None,
    }
}

/// Handle one link: append its replacement, and record its edge or its miss.
#[verifier::rlimit(40)]
fn apply_link(
    v: &[char],
    f: &(usize, usize, WikiLink),
    from: &str,
    anchor: &str,
    resolver: &Resolver,
    out: &mut Vec<char>,
    unresolved: &mut Vec<UnresolvedLink>,
    edges: &mut Vec<String>,
)
    requires
        f.0 <= f.1 <= v@.len(),
    ensures
        final(out)@ == old(out)@ + replacement(v@, (f.0 as int, f.1 as int, f.2@), outcome(resolver@, (f.0 as int, f.1 as int, f.2@), anchor@), from@),
        sv(final(edges)@) == sv(old(edges)@) + match edge_of(outcome(resolver@, (f.0 as int, f.1 as int, f.2@), anchor@)) {
            Some(p) => seq![p],
            None => Seq::<Seq<char>>::empty(),
        },
        final(unresolved)@.map_values(|u: UnresolvedLink| unresolved_view(u)) == old(unresolved)@.map_values(|u: UnresolvedLink| unresolved_view(u))
            + if outcome(resolver@, (f.0 as int, f.1 as int, f.2@), anchor@) is Missing {
                seq![(from@, f.2.target@, opt_view(f.2.heading), opt_view(f.2.alias))]
            } else {
                Seq::<UnresolvedV>::empty()
            },
{
    let link = &f.2;
    let res = resolver.resolve_with_heading(link.target.as_str(), opt_str_ref(&link.heading), anchor);
    let ghost eb = sv(edges@);
    let ghost ub = unresolved@.map_values(|u: UnresolvedLink| unresolved_view(u));
    match res {
        Resolution::Entry(p) => {
            let rel = to_chars(render_relative(from, p.as_str()).as_str());
            push_md_link(out, &display_exec(link), &rel);
            push_string(edges, p);
        },
        Resolution::Page(p) => {
            let rel = to_chars(render_relative(from, p.as_str()).as_str());
            push_md_link(out, &display_exec(link), &rel);
            push_string(edges, p);
        },
        Resolution::EntryAnchor(p, s) => {
            let mut rel = to_chars(render_relative(from, p.as_str()).as_str());
            rel.push('#');
            push_all(&mut rel, &to_chars(s.as_str()));
            push_md_link(out, &display_exec(link), &rel);
            push_string(edges, p);
        },
        Resolution::Missing => {
            push_all(out, &slice_copy(v, f.0, f.1));
            push_all(out, &to_chars(" (未解決)"));
            let u = UnresolvedLink {
                source: String::from_str(from),
                target: link.target.clone(),
                heading: copy_opt(&link.heading),
                alias: copy_opt(&link.alias),
            };
            unresolved.push(u);
            assert(unresolved@.map_values(|u: UnresolvedLink| unresolved_view(u)) =~= ub.push(unresolved_view(u)));
        },
    }
    assert(sv(edges@) =~= sv(edges@));
}

/// The body with its wikilinks resolved, the unresolved links, and the targets
/// of the resolved links in order. `from` is the page's output path and
/// `anchor` the entry page of the note that links.
#[verifier::rlimit(60)]
pub fn resolve_in(body: &str, from: &str, anchor: &str, resolver: &Resolver) -> (r: (String, Vec<UnresolvedLink>, Vec<String>))
    ensures
        r.0@ == rewrite(body@, find_links_spec(body@), 0, resolver@, from@, anchor@),
        r.1@.map_values(|u: UnresolvedLink| unresolved_view(u)) == missing_of(find_links_spec(body@), resolver@, from@, anchor@),
        sv(r.2@) == edges_of(find_links_spec(body@), resolver@, anchor@),
{
    let v = to_chars(body);
    let links = find_links(&v);
    proof {
        lemma_find_links_bounds(v@);
    }
    let ghost fl = find_links_spec(v@);
    let ghost ts = resolver@;
    let mut out: Vec<char> = Vec::new();
    let mut unresolved: Vec<UnresolvedLink> = Vec::new();
    let mut edges: Vec<String> = Vec::new();
    let mut cur: usize = 0;
    let mut i: usize = 0;
    assert(fl.skip(0) =~= fl);
    while i < links.len()
        invariant
            v@ == body@,
            chars_view(links@) == fl,
            fl == find_links_spec(body@),
            ranges_ok(fl, 0, v@.len() as int),
            i <= links@.len(),
            cur <= v@.len(),
            i < links@.len() ==> cur <= fl[i as int].0,
            out@ + rewrite(v@, fl.skip(i as int), cur as int, ts, from@, anchor@) == rewrite(v@, fl, 0, ts, from@, anchor@),
            unresolved@.map_values(|u: UnresolvedLink| unresolved_view(u)) + missing_of(fl.skip(i as int), ts, from@, anchor@)
                == missing_of(fl, ts, from@, anchor@),
            sv(edges@) + edges_of(fl.skip(i as int), ts, anchor@) == edges_of(fl, ts, anchor@),
            ts == resolver@,
        decreases links@.len() - i,
    {
        let ghost f = fl[i as int];
        assert(f == (links@[i as int].0 as int, links@[i as int].1 as int, links@[i as int].2@));
        let s = links[i].0;
        let e = links[i].1;
        let ghost rest = fl.skip(i as int);
        assert(rest[0] == f);
        assert(rest.drop_first() =~= fl.skip(i + 1));
        let ghost o0 = out@;
        let ghost u0 = unresolved@.map_values(|u: UnresolvedLink| unresolved_view(u));
        let ghost e0 = sv(edges@);
        push_all(&mut out, &slice_copy(&v, cur, s));
        apply_link(&v, &links[i], from, anchor, resolver, &mut out, &mut unresolved, &mut edges);
        proof {
            let rep = replacement(v@, f, outcome(ts, f, anchor@), from@);
            assert(out@ =~= o0 + v@.subrange(cur as int, s as int) + rep);
            assert(rewrite(v@, rest, cur as int, ts, from@, anchor@)
                == v@.subrange(cur as int, s as int) + rep + rewrite(v@, fl.skip(i + 1), e as int, ts, from@, anchor@));
            assert(out@ + rewrite(v@, fl.skip(i + 1), e as int, ts, from@, anchor@)
                =~= o0 + rewrite(v@, rest, cur as int, ts, from@, anchor@));
            if outcome(ts, f, anchor@) is Missing {
                assert(missing_of(rest, ts, from@, anchor@) == seq![(from@, f.2.1, f.2.2, f.2.3)] + missing_of(fl.skip(i + 1), ts, from@, anchor@));
            } else {
                assert(missing_of(rest, ts, from@, anchor@) == missing_of(fl.skip(i + 1), ts, from@, anchor@));
            }
            assert(unresolved@.map_values(|u: UnresolvedLink| unresolved_view(u)) + missing_of(fl.skip(i + 1), ts, from@, anchor@)
                =~= u0 + missing_of(rest, ts, from@, anchor@));
            match edge_of(outcome(ts, f, anchor@)) {
                Some(p) => {
                    assert(edges_of(rest, ts, anchor@) == seq![p] + edges_of(fl.skip(i + 1), ts, anchor@));
                },
                None => {
                    assert(edges_of(rest, ts, anchor@) == edges_of(fl.skip(i + 1), ts, anchor@));
                },
            }
            assert(sv(edges@) + edges_of(fl.skip(i + 1), ts, anchor@) =~= e0 + edges_of(rest, ts, anchor@));
            if i + 1 < fl.len() {
                assert(fl[i as int].1 <= fl[i + 1].0);
            }
        }
        cur = e;
        i = i + 1;
    }
    push_all(&mut out, &slice_copy(&v, cur, v.len()));
    proof {
        assert(fl.skip(i as int) =~= Seq::<FoundLink>::empty());
        assert(out@ =~= rewrite(v@, fl, 0, ts, from@, anchor@));
        assert(unresolved@.map_values(|u: UnresolvedLink| unresolved_view(u)) + Seq::<UnresolvedV>::empty()
            =~= unresolved@.map_values(|u: UnresolvedLink| unresolved_view(u)));
        assert(sv(edges@) + Seq::<Seq<char>>::empty() =~= sv(edges@));
    }
    (from_chars(&out), unresolved, edges)
}

} // verus!
