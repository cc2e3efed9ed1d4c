//! Flattening Markdown to plain link-label text.
use vstd::prelude::*;
use crate::pattern::{regex_replaced, replace_all};
use crate::strs::{from_chars, push_all, starts_with, starts_with_at, to_chars, trim, trim_idx, slice_copy};

verus! {

/// `std::str::replace` with a non-empty text pattern: every match, left to
/// right and without overlap, replaced by `to`.
pub open spec fn replace_text(s: Seq<char>, pat: Seq<char>, to: Seq<char>) -> Seq<char>
    decreases s.len(),
{
    if s.len() == 0 {
        seq![]
    } else if pat.len() > 0 && starts_with(s, pat) {
        to + replace_text(s.skip(pat.len() as int), pat, to)
    } else {
        seq![s[0]] + replace_text(s.drop_first(), pat, to)
    }
}

/// `pattern` replaced everywhere in `t` by `rep` (the text unchanged when the pattern does not compile).
pub open spec fn regex_or_same(pattern: Seq<char>, t: Seq<char>, rep: Seq<char>) -> Seq<char> {
    match regex_replaced(pattern, t, rep) {
        Some(n) => n,
        None => t,
    }
}

/// Replace again and again until nothing changes, at most `fuel` times.
pub open spec fn replace_until_stable(pattern: Seq<char>, t: Seq<char>, rep: Seq<char>, fuel: nat) -> Seq<char>
    decreases fuel,
{
    if fuel == 0 {
        t
    } else {
        match regex_replaced(pattern, t, rep) {
            Some(n) => if n == t { t } else { replace_until_stable(pattern, n, rep, (fuel - 1) as nat) },
            None => t,
        }
    }
}

pub open spec fn image_pattern() -> Seq<char> {
    "!\\[([^\\]\\n]*)\\]\\([^)]+\\)"@
}

pub open spec fn link_pattern() -> Seq<char> {
    "\\[([^\\]\\n]+)\\]\\([^)]+\\)"@
}

pub open spec fn tag_pattern() -> Seq<char> {
    "<[^>\\n]+>"@
}

pub open spec fn ws_pattern() -> Seq<char> {
    "\\s+"@
}

/// The label text of `raw`: images and links flattened to their text (each
/// until nothing is left to flatten; every such step removes at least four
/// characters, so as many rounds as characters are enough), HTML tags
/// dropped, wiki brackets collapsed, remaining brackets escaped, the whole
/// trimmed and each run of white space made one space.
pub open spec fn label_of(raw: Seq<char>) -> Seq<char> {
    let t1 = replace_until_stable(image_pattern(), raw, "$1"@, raw.len());
    let t2 = replace_until_stable(link_pattern(), t1, "$1"@, t1.len());
    let t3 = regex_or_same(tag_pattern(), t2, ""@);
    let t4 = replace_text(replace_text(t3, "[["@, "["@), "]]"@, "]"@);
    let t5 = replace_text(replace_text(t4, "["@, "\\["@), "]"@, "\\]"@);
    regex_or_same(ws_pattern(), trim(t5), " "@)
}

/// `s.replace(pat, to)`.
pub fn replace_str(s: &str, pat: &str, to: &str) -> (r: String)
    ensures
        r@ == replace_text(s@, pat@, to@),
{
    let v = to_chars(s);
    let p = to_chars(pat);
    let t = to_chars(to);
    let mut out: Vec<char> = Vec::new();
    let mut i: usize = 0;
    assert(v@.skip(0) =~= v@);
    while i < v.len()
        invariant
            i <= v@.len(),
            out@ + replace_text(v@.skip(i as int), p@, t@) == replace_text(v@, p@, t@),
        decreases v@.len() - i,
    {
        let ghost rest = v@.skip(i as int);
        assert(v@.subrange(i as int, v@.len() as int) =~= rest);
        if p.len() > 0 && starts_with_at(&v, i, v.len(), &p) {
            push_all(&mut out, &t);
            assert(rest.skip(p@.len() as int) =~= v@.skip(i + p@.len()));
            i = i + p.len();
        } else {
            out.push(v[i]);
            assert(rest.drop_first() =~= v@.skip(i + 1));
            assert(rest[0] == v@[i as int]);
            i = i + 1;
        }
        assert((out@ + replace_text(v@.skip(i as int), p@, t@)) =~= replace_text(v@, p@, t@));
    }
    assert(v@.skip(i as int) =~= Seq::<char>::empty());
    assert(out@ + Seq::<char>::empty() =~= out@);
    from_chars(&out)
}

fn same_text(a: &str, b: &str) -> (r: bool)
    ensures
        r == (a@ == b@),
{
    crate::strs::chars_eq(&to_chars(a), &to_chars(b))
}

fn replace_or_same(pattern: &str, t: String, rep: &str) -> (r: String)
    ensures
        r@ == regex_or_same(pattern@, t@, rep@),
{
    match replace_all(pattern, t.as_str(), rep) {
        Some(n) => n,
        None => t,
    }
}

fn replace_stable(pattern: &str, t: String, rep: &str) -> (r: String)
    ensures
        r@ == replace_until_stable(pattern@, t@, rep@, t@.len()),
{
    let mut fuel: usize = t.unicode_len();
    let ghost start = t@;
    let mut text = t;
    loop
        invariant
            start == t@,
            replace_until_stable(pattern@, text@, rep@, fuel as nat) == replace_until_stable(pattern@, start, rep@, start.len()),
        decreases fuel,
    {
        if fuel == 0 {
            return text;
        }
        match replace_all(pattern, text.as_str(), rep) {
            None => {
                return text;
            },
            Some(n) => {
                if same_text(n.as_str(), text.as_str()) {
                    return text;
                }
                text = n;
                fuel = fuel - 1;
            },
        }
    }
}

/// Markdown link labels cannot safely contain arbitrary Markdown. Headings from
/// real READMEs often include badges or inline links, so generated navigation
/// flattens labels to readable text before wrapping them in `[...]`.
pub fn link_label(raw: &str) -> (r: String)
    ensures
        r@ == label_of(raw@),
{
    let t1 = replace_stable("!\\[([^\\]\\n]*)\\]\\([^)]+\\)", String::from_str(raw), "$1");
    let t2 = replace_stable("\\[([^\\]\\n]+)\\]\\([^)]+\\)", t1, "$1");
    let t3 = replace_or_same("<[^>\\n]+>", t2, "");
    let t4 = replace_str(replace_str(t3.as_str(), "[[", "[").as_str(), "]]", "]");
    let t5 = replace_str(replace_str(t4.as_str(), "[", "\\[").as_str(), "]", "\\]");
    let v = to_chars(t5.as_str());
    let (a, b) = trim_idx(&v, 0, v.len());
    assert(v@.subrange(0, v@.len() as int) =~= v@);
    let trimmed = from_chars(&slice_copy(&v, a, b));
    replace_or_same("\\s+", trimmed, " ")
}

} // verus!
