//! ATX heading extraction from Markdown bodies.
use vstd::prelude::*;
use crate::strs::{
    from_chars, is_ws, lines, lines_chars, ltrim, ltrim_idx, slice_copy, starts_with, starts_with_at, to_chars,
    trim, trim_idx, vv,
};

verus! {

/// One ATX heading: its level (1..=6) and its text.
#[derive(Debug, Clone, PartialEq, Eq)]
pub struct Heading {
    pub level: u8,
    pub text: String,
}

impl View for Heading {
    type V = (u8, Seq<char>);

    open spec fn view(&self) -> (u8, Seq<char>) {
        (self.level, self.text@)
    }
}

pub open spec fn headings_view(v: Seq<Heading>) -> Seq<(u8, Seq<char>)> {
    v.map_values(|h: Heading| h@)
}

/// Number of leading `'#'` characters.
pub open spec fn hash_run(s: Seq<char>) -> nat
    decreases s.len(),
{
    if s.len() > 0 && s[0] == '#' {
        1 + hash_run(s.drop_first())
    } else {
        0
    }
}

/// `trim_end_matches('#')`.
pub open spec fn strip_trailing_hashes(s: Seq<char>) -> Seq<char>
    decreases s.len(),
{
    if s.len() > 0 && s.last() == '#' {
        strip_trailing_hashes(s.drop_last())
    } else {
        s
    }
}

/// A line opens or closes a fenced code block when, after leading
/// whitespace, it starts with three backticks or three tildes.
pub open spec fn is_fence(line: Seq<char>) -> bool {
    let t = ltrim(line);
    starts_with(t, seq!['`', '`', '`']) || starts_with(t, seq!['~', '~', '~'])
}

/// The ATX heading a line holds, if any: after leading whitespace, one to
/// six `'#'`, then end of line or a space; the text is the rest, trimmed, with
/// a closing run of `'#'` removed.
pub open spec fn atx_of(line: Seq<char>) -> Option<(u8, Seq<char>)> {
    let t = ltrim(line);
    let n = hash_run(t);
    if n == 0 || n > 6 {
        None
    } else {
        let rest = t.skip(n as int);
        if rest.len() > 0 && rest[0] != ' ' {
            None
        } else {
            Some((n as u8, trim(strip_trailing_hashes(trim(rest)))))
        }
    }
}

/// Headings of the lines `ls`, given whether the first of them lies inside a fence.
pub open spec fn headings_of_lines(ls: Seq<Seq<char>>, in_fence: bool) -> Seq<(u8, Seq<char>)>
    decreases ls.len(),
{
    if ls.len() == 0 {
        seq![]
    } else if is_fence(ls[0]) {
        headings_of_lines(ls.drop_first(), !in_fence)
    } else if in_fence {
        headings_of_lines(ls.drop_first(), in_fence)
    } else {
        match atx_of(ls[0]) {
            Some(h) => seq![h] + headings_of_lines(ls.drop_first(), in_fence),
            None => headings_of_lines(ls.drop_first(), in_fence),
        }
    }
}

/// All ATX headings of a Markdown text, outside fenced code blocks, in order.
pub open spec fn headings_of(content: Seq<char>) -> Seq<(u8, Seq<char>)> {
    headings_of_lines(lines(content), false)
}

/// Law: a line that, after leading whitespace, starts with three backticks
/// or three tildes opens or closes a fenced block: it yields no heading, and
/// the lines after it are read with the fence state flipped.
pub proof fn lemma_fence_line_toggles(l: Seq<char>, ls: Seq<Seq<char>>, in_fence: bool)
    requires
        ltrim(l).len() >= 3,
        (ltrim(l)[0] == '`' && ltrim(l)[1] == '`' && ltrim(l)[2] == '`')
            || (ltrim(l)[0] == '~' && ltrim(l)[1] == '~' && ltrim(l)[2] == '~'),
    ensures
        headings_of_lines(seq![l] + ls, in_fence) == headings_of_lines(ls, !in_fence),
{
    let t = ltrim(l);
    assert(t.subrange(0, 3) =~= seq![t[0], t[1], t[2]]);
    assert(is_fence(l));
    assert((seq![l] + ls)[0] == l);
    assert((seq![l] + ls).drop_first() =~= ls);
}

/// Law: inside a fenced block, a line that does not close it yields no
/// heading, whatever it holds, and the block stays open.
pub proof fn lemma_fenced_line_silent(l: Seq<char>, ls: Seq<Seq<char>>)
    requires
        !(ltrim(l).len() >= 3
            && ((ltrim(l)[0] == '`' && ltrim(l)[1] == '`' && ltrim(l)[2] == '`')
                || (ltrim(l)[0] == '~' && ltrim(l)[1] == '~' && ltrim(l)[2] == '~'))),
    ensures
        headings_of_lines(seq![l] + ls, true) == headings_of_lines(ls, true),
{
    let t = ltrim(l);
    if t.len() >= 3 {
        assert(t.subrange(0, 3) =~= seq![t[0], t[1], t[2]]);
    }
    assert(!is_fence(l));
    assert((seq![l] + ls)[0] == l);
    assert((seq![l] + ls).drop_first() =~= ls);
}

proof fn lemma_hash_run_prefix(k: nat, r: Seq<char>)
    requires
        r.len() == 0 || r[0] != '#',
    ensures
        hash_run(Seq::new(k, |i: int| '#') + r) == k,
    decreases k,
{
    let x = Seq::new(k, |i: int| '#') + r;
    if k > 0 {
        assert(x[0] == '#');
        assert(x.drop_first() =~= Seq::new((k - 1) as nat, |i: int| '#') + r);
        lemma_hash_run_prefix((k - 1) as nat, r);
    } else {
        assert(x =~= r);
    }
}

/// Law: a line of one to six `#`, a space, and a text without whitespace at
/// its ends and not ending in `#` is a heading of that level holding that
/// text; outside a fence it is reported, before the headings of the lines
/// after it.
pub proof fn lemma_atx_line(n: nat, text: Seq<char>, l: Seq<char>, ls: Seq<Seq<char>>)
    requires
        1 <= n <= 6,
        text.len() > 0,
        !is_ws(text[0]),
        !is_ws(text.last()),
        text.last() != '#',
        l == Seq::new(n, |i: int| '#') + seq![' '] + text,
    ensures
        atx_of(l) == Some((n as u8, text)),
        headings_of_lines(seq![l] + ls, false) == seq![(n as u8, text)] + headings_of_lines(ls, false),
{
    let rest = seq![' '] + text;
    assert(l =~= Seq::new(n, |i: int| '#') + rest);
    assert(l[0] == '#');
    assert(ltrim(l) == l);
    lemma_hash_run_prefix(n, rest);
    assert(l.skip(n as int) =~= rest);
    assert(rest.drop_first() =~= text);
    assert(ltrim(rest) == ltrim(text));
    assert(ltrim(text) == text);
    assert(crate::strs::rtrim(text) == text);
    assert(trim(rest) == text);
    assert(strip_trailing_hashes(text) == text);
    assert(trim(text) == text);
    assert(!is_fence(l)) by {
        assert(ltrim(l).subrange(0, 3)[0] == '#');
    }
    assert((seq![l] + ls)[0] == l);
    assert((seq![l] + ls).drop_first() =~= ls);
}

/// Law: the headings of a text that starts with a line `l` (no line break in
/// it, not ending in a carriage return) are those of `l` and the rest of the
/// text read line by line; with the laws above, a leading fence line,
/// backticks or tildes, hides every heading up to the line that closes it.
pub proof fn lemma_headings_first_line(l: Seq<char>, rest: Seq<char>)
    requires
        forall|k: int| 0 <= k < l.len() ==> #[trigger] l[k] != '\n',
        l.len() == 0 || l.last() != '\r',
    ensures
        headings_of(l + seq!['\n'] + rest) == headings_of_lines(seq![l] + lines(rest), false),
{
    let s = l + seq!['\n'] + rest;
    assert forall|k: int| 0 <= k < l.len() implies s[k] != '\n' by {
        assert(s[k] == l[k]);
    }
    crate::strs::lemma_first_index_of(s, '\n', l.len() as int);
    assert(s.take(l.len() as int) =~= l);
    assert(s.skip(l.len() as int + 1) =~= rest);
    assert(crate::strs::strip_cr(l) == l);
    assert(lines(s) == seq![l] + lines(rest));
}

proof fn lemma_hash_run_chars(s: Seq<char>)
    ensures
        hash_run(s) <= s.len(),
        forall|k: int| 0 <= k < hash_run(s) ==> #[trigger] s[k] == '#',
        hash_run(s) < s.len() ==> s[hash_run(s) as int] != '#',
    decreases s.len(),
{
    if s.len() > 0 && s[0] == '#' {
        let t = s.drop_first();
        lemma_hash_run_chars(t);
        assert forall|k: int| 0 <= k < hash_run(s) implies #[trigger] s[k] == '#' by {
            if k > 0 {
                assert(s[k] == t[k - 1]);
            }
        }
        if hash_run(s) < s.len() {
            assert(s[hash_run(s) as int] == t[hash_run(t) as int]);
        }
    }
}

/// Law: a heading is only read from a line that, after leading whitespace,
/// starts with one to six `#` (its level) followed by a space or the end of
/// the line; a seventh `#`, or a `#` run followed by another character, is
/// no heading.
pub proof fn lemma_atx_shape(l: Seq<char>)
    ensures
        atx_of(l) matches Some((n, _)) ==> {
            &&& 1 <= n <= 6
            &&& n <= ltrim(l).len()
            &&& forall|k: int| 0 <= k < n ==> #[trigger] ltrim(l)[k] == '#'
            &&& (n == ltrim(l).len() || ltrim(l)[n as int] == ' ')
        },
{
    lemma_hash_run_chars(ltrim(l));
    let t = ltrim(l);
    let n = hash_run(t);
    if atx_of(l) is Some && n < t.len() {
        assert(t.skip(n as int)[0] == t[n as int]);
    }
}

pub fn is_fence_chars(v: &[char], lo: usize, hi: usize) -> (b: bool)
    requires
        lo <= hi <= v@.len(),
    ensures
        b == is_fence(v@.subrange(lo as int, hi as int)),
{
    let t = ltrim_idx(v, lo, hi);
    starts_with_at(v, t, hi, &['`', '`', '`']) || starts_with_at(v, t, hi, &['~', '~', '~'])
}

/// Leading `'#'` count of `v[lo..hi]`, stopping once it exceeds 6.
pub fn hash_run_capped(v: &[char], lo: usize, hi: usize) -> (n: usize)
    requires
        lo <= hi <= v@.len(),
    ensures
        n <= 7,
        n <= hi - lo,
        n <= 6 ==> n == hash_run(v@.subrange(lo as int, hi as int)),
        n == 7 ==> hash_run(v@.subrange(lo as int, hi as int)) > 6,
{
    let mut i = lo;
    while i < hi && v[i] == '#' && i - lo < 7
        invariant
            lo <= i <= hi <= v@.len(),
            i - lo <= 7,
            forall|k: int| lo <= k < i ==> v@[k] == '#',
            hash_run(v@.subrange(lo as int, hi as int)) == (i - lo) + hash_run(
                v@.subrange(i as int, hi as int),
            ),
        decreases hi - i,
    {
        assert(v@.subrange(i as int, hi as int).drop_first() =~= v@.subrange(i + 1, hi as int));
        i = i + 1;
    }
    i - lo
}

/// `trim_end_matches('#')` on `v[lo..hi]`: the new end.
pub fn strip_trailing_hashes_idx(v: &[char], lo: usize, hi: usize) -> (r: usize)
    requires
        lo <= hi <= v@.len(),
    ensures
        lo <= r <= hi,
        strip_trailing_hashes(v@.subrange(lo as int, hi as int)) == v@.subrange(lo as int, r as int),
{
    let mut j = hi;
    while j > lo && v[j - 1] == '#'
        invariant
            lo <= j <= hi <= v@.len(),
            strip_trailing_hashes(v@.subrange(lo as int, hi as int)) == strip_trailing_hashes(
                v@.subrange(lo as int, j as int),
            ),
        decreases j - lo,
    {
        assert(v@.subrange(lo as int, j as int).drop_last() =~= v@.subrange(lo as int, j - 1));
        j = j - 1;
    }
    j
}

/// The ATX heading held by `v[lo..hi]`.
pub fn parse_atx_chars(v: &[char], lo: usize, hi: usize) -> (r: Option<(u8, Vec<char>)>)
    requires
        lo <= hi <= v@.len(),
    ensures
        match atx_of(v@.subrange(lo as int, hi as int)) {
            Some((l, t)) => r matches Some((l2, t2)) && l2 == l && t2@ == t,
            None => r is None,
        },
{
    let t = ltrim_idx(v, lo, hi);
    let n = hash_run_capped(v, t, hi);
    if n == 0 || n > 6 {
        return None;
    }
    let rs = t + n;
    assert(v@.subrange(t as int, hi as int).skip(n as int) =~= v@.subrange(rs as int, hi as int));
    if rs < hi && v[rs] != ' ' {
        return None;
    }
    let (a, b) = trim_idx(v, rs, hi);
    let c = strip_trailing_hashes_idx(v, a, b);
    let (d, e) = trim_idx(v, a, c);
    Some((n as u8, slice_copy(v, d, e)))
}

/// The ATX headings (`#` to `######`) of a Markdown body;
/// lines inside ``` or ~~~ fences are passed over.
pub fn extract(content: &str) -> (out: Vec<Heading>)
    ensures
        headings_view(out@) == headings_of(content@),
{
    let v = to_chars(content);
    let ls = lines_chars(&v);
    let mut out: Vec<Heading> = Vec::new();
    let mut in_fence = false;
    let mut i: usize = 0;
    assert(vv(&ls).skip(0) =~= vv(&ls));
    while i < ls.len()
        invariant
            i <= ls@.len(),
            vv(&ls) == lines(content@),
            headings_view(out@) + headings_of_lines(vv(&ls).skip(i as int), in_fence)
                == headings_of(content@),
        decreases ls@.len() - i,
    {
        let line = &ls[i];
        let ghost rest = vv(&ls).skip(i as int);
        assert(rest[0] == line@);
        assert(rest.drop_first() =~= vv(&ls).skip(i + 1));
        assert(line@.subrange(0, line@.len() as int) =~= line@);
        if is_fence_chars(line, 0, line.len()) {
            in_fence = !in_fence;
        } else if !in_fence {
            match parse_atx_chars(line, 0, line.len()) {
                Some((level, text)) => {
                    let ghost before = headings_view(out@);
                    out.push(Heading { level, text: from_chars(&text) });
                    assert(headings_view(out@) =~= before + seq![(level, text@)]);
                },
                None => {},
            }
        }
        i = i + 1;
    }
    assert(vv(&ls).skip(i as int) =~= Seq::<Seq<char>>::empty());
    assert(headings_view(out@) + Seq::<(u8, Seq<char>)>::empty() =~= headings_view(out@));
    out
}

/// The ATX heading of one line (public form used by tests and other modules).
pub fn parse_atx(line: &str) -> (r: Option<Heading>)
    ensures
        match atx_of(line@) {
            Some(h) => r matches Some(x) && x@ == h,
            None => r is None,
        },
{
    let v = to_chars(line);
    assert(v@.subrange(0, v@.len() as int) =~= v@);
    match parse_atx_chars(&v, 0, v.len()) {
        Some((level, text)) => Some(Heading { level, text: from_chars(&text) }),
        None => None,
    }
}

} // verus!
