//! The leading YAML front matter of a note: its extraction and the small
//! subset of YAML the library reads (scalars, inline lists, dash lists).
use vstd::prelude::*;
use crate::strs::{find_char, 
    chars_eq, first_index_of, from_chars, lemma_first_index_of, lines, lines_chars, ltrim,
    ltrim_idx, slice_copy, starts_with, starts_with_at, to_chars, trim, trim_idx, vv, split_on,
    split_chars, is_ascii_upper, ascii_lower, ascii_lower_exec, ends_with, ends_with_at,
};

verus! {

/// The fields of the front matter that the library reads.
#[derive(Debug, Clone, Default, PartialEq, Eq)]
pub struct Frontmatter {
    pub wiki: Option<bool>,
    pub title: Option<String>,
    pub summary: Option<String>,
    pub tags: Vec<String>,
    pub related: Vec<String>,
    pub aliases: Vec<String>,
    pub fragment: Option<bool>,
}

/// The mathematical content of a [`Frontmatter`].
pub struct FrontmatterModel {
    pub wiki: Option<bool>,
    pub title: Option<Seq<char>>,
    pub summary: Option<Seq<char>>,
    pub tags: Seq<Seq<char>>,
    pub related: Seq<Seq<char>>,
    pub aliases: Seq<Seq<char>>,
    pub fragment: Option<bool>,
}

pub open spec fn opt_view(o: Option<String>) -> Option<Seq<char>> {
    match o {
        Some(s) => Some(s@),
        None => None,
    }
}

pub open spec fn strings_view(v: Seq<String>) -> Seq<Seq<char>> {
    v.map_values(|s: String| s@)
}

impl View for Frontmatter {
    type V = FrontmatterModel;

    open spec fn view(&self) -> FrontmatterModel {
        FrontmatterModel {
            wiki: self.wiki,
            title: opt_view(self.title),
            summary: opt_view(self.summary),
            tags: strings_view(self.tags@),
            related: strings_view(self.related@),
            aliases: strings_view(self.aliases@),
            fragment: self.fragment,
        }
    }
}

/// The front matter with no field set.
pub open spec fn empty_model() -> FrontmatterModel {
    FrontmatterModel {
        wiki: None,
        title: None,
        summary: None,
        tags: seq![],
        related: seq![],
        aliases: seq![],
        fragment: None,
    }
}

pub fn empty_frontmatter() -> (fm: Frontmatter)
    ensures
        fm@ == empty_model(),
{
    let fm = Frontmatter {
        wiki: None,
        title: None,
        summary: None,
        tags: Vec::new(),
        related: Vec::new(),
        aliases: Vec::new(),
        fragment: None,
    };
    assert(fm@.tags =~= Seq::<Seq<char>>::empty());
    assert(fm@.related =~= Seq::<Seq<char>>::empty());
    assert(fm@.aliases =~= Seq::<Seq<char>>::empty());
    fm
}

// ---------------------------------------------------------------------------
// Keys
// ---------------------------------------------------------------------------

pub open spec fn key_wiki() -> Seq<char> {
    seq!['w', 'i', 'k', 'i']
}

pub open spec fn key_title() -> Seq<char> {
    seq!['t', 'i', 't', 'l', 'e']
}

pub open spec fn key_summary() -> Seq<char> {
    seq!['s', 'u', 'm', 'm', 'a', 'r', 'y']
}

pub open spec fn key_tags() -> Seq<char> {
    seq!['t', 'a', 'g', 's']
}

pub open spec fn key_related() -> Seq<char> {
    seq!['r', 'e', 'l', 'a', 't', 'e', 'd']
}

pub open spec fn key_aliases() -> Seq<char> {
    seq!['a', 'l', 'i', 'a', 's', 'e', 's']
}

pub open spec fn key_fragment() -> Seq<char> {
    seq!['f', 'r', 'a', 'g', 'm', 'e', 'n', 't']
}

// ---------------------------------------------------------------------------
// Scalars
// ---------------------------------------------------------------------------

/// Remove one pair of matching surrounding quotes (`"` or `'`) after trimming.
pub open spec fn unquote(s: Seq<char>) -> Seq<char> {
    let t = trim(s);
    if t.len() >= 2 && ((t[0] == '"' && t.last() == '"') || (t[0] == '\'' && t.last() == '\'')) {
        t.subrange(1, t.len() - 1)
    } else {
        t
    }
}

/// ASCII lowercase of a whole text.
pub open spec fn lower(s: Seq<char>) -> Seq<char> {
    s.map_values(|c: char| ascii_lower(c))
}

/// `true`/`yes` and `false`/`no`, in any letter case, after trimming.
pub open spec fn parse_bool(s: Seq<char>) -> Option<bool> {
    let l = lower(trim(s));
    if l == seq!['t', 'r', 'u', 'e'] || l == seq!['y', 'e', 's'] {
        Some(true)
    } else if l == seq!['f', 'a', 'l', 's', 'e'] || l == seq!['n', 'o'] {
        Some(false)
    } else {
        None
    }
}

/// The non-empty trimmed pieces of a comma separated list, unquoted.
pub open spec fn list_items(pieces: Seq<Seq<char>>) -> Seq<Seq<char>>
    decreases pieces.len(),
{
    if pieces.len() == 0 {
        seq![]
    } else {
        let t = trim(pieces[0]);
        if t.len() == 0 {
            list_items(pieces.drop_first())
        } else {
            seq![unquote(t)] + list_items(pieces.drop_first())
        }
    }
}

/// `[a, b]` gives its items; any other value is a list of one item.
pub open spec fn parse_inline_list(value: Seq<char>) -> Seq<Seq<char>> {
    let t = trim(value);
    if t.len() >= 2 && t[0] == '[' && t.last() == ']' {
        list_items(split_on(t.subrange(1, t.len() - 1), ','))
    } else {
        seq![unquote(t)]
    }
}

/// A `key: value` line with a non-empty value.
pub open spec fn apply_scalar(fm: FrontmatterModel, key: Seq<char>, value: Seq<char>) -> FrontmatterModel {
    if key == key_wiki() {
        FrontmatterModel { wiki: parse_bool(value), ..fm }
    } else if key == key_title() {
        FrontmatterModel { title: Some(unquote(value)), ..fm }
    } else if key == key_summary() {
        FrontmatterModel { summary: Some(unquote(value)), ..fm }
    } else if key == key_tags() {
        FrontmatterModel { tags: parse_inline_list(value), ..fm }
    } else if key == key_related() {
        FrontmatterModel { related: parse_inline_list(value), ..fm }
    } else if key == key_aliases() {
        FrontmatterModel { aliases: parse_inline_list(value), ..fm }
    } else if key == key_fragment() {
        FrontmatterModel { fragment: parse_bool(value), ..fm }
    } else {
        fm
    }
}

/// A `key:` line followed by `- item` lines.
pub open spec fn apply_list(fm: FrontmatterModel, key: Seq<char>, items: Seq<Seq<char>>) -> FrontmatterModel {
    if key == key_tags() {
        FrontmatterModel { tags: items, ..fm }
    } else if key == key_related() {
        FrontmatterModel { related: items, ..fm }
    } else if key == key_aliases() {
        FrontmatterModel { aliases: items, ..fm }
    } else {
        fm
    }
}

/// The `- item` lines (blank lines skipped) at the start of `ls`, and how
/// many lines they span.
pub open spec fn collect_items(ls: Seq<Seq<char>>) -> (Seq<Seq<char>>, nat)
    decreases ls.len(),
{
    if ls.len() == 0 {
        (seq![], 0)
    } else {
        let tl = ltrim(ls[0]);
        if starts_with(tl, seq!['-', ' ']) {
            let r = collect_items(ls.drop_first());
            (seq![unquote(tl.skip(2))] + r.0, r.1 + 1)
        } else if tl.len() == 0 {
            let r = collect_items(ls.drop_first());
            (r.0, r.1 + 1)
        } else {
            (seq![], 0)
        }
    }
}

pub proof fn lemma_collect_items_count(ls: Seq<Seq<char>>)
    ensures
        collect_items(ls).1 <= ls.len(),
    decreases ls.len(),
{
    if ls.len() > 0 {
        lemma_collect_items_count(ls.drop_first());
    }
}

/// Key and value of a line holding a `':'`, both trimmed.
pub open spec fn key_of(t: Seq<char>) -> Seq<char> {
    trim(t.take(first_index_of(t, ':')))
}

pub open spec fn value_of(t: Seq<char>) -> Seq<char> {
    trim(t.skip(first_index_of(t, ':') + 1))
}

/// The front matter fields read from the lines `ls`, starting from `fm`.
pub open spec fn parse_lines(ls: Seq<Seq<char>>, fm: FrontmatterModel) -> FrontmatterModel
    decreases ls.len(),
{
    if ls.len() == 0 {
        fm
    } else {
        let t = ltrim(ls[0]);
        if t.len() == 0 || t[0] == '#' || first_index_of(t, ':') >= t.len() {
            parse_lines(ls.drop_first(), fm)
        } else if value_of(t).len() == 0 {
            let r = collect_items(ls.drop_first());
            proof {
                lemma_collect_items_count(ls.drop_first());
            }
            parse_lines(ls.skip(1 + r.1 as int), apply_list(fm, key_of(t), r.0))
        } else {
            parse_lines(ls.drop_first(), apply_scalar(fm, key_of(t), value_of(t)))
        }
    }
}

/// The front matter fields of a YAML block.
pub open spec fn parse_block(block: Seq<char>) -> FrontmatterModel {
    parse_lines(lines(block), empty_model())
}

/// `"---"` stands at `p` on a line of its own.
pub open spec fn is_delim_at(s: Seq<char>, p: int) -> bool {
    &&& 0 <= p
    &&& p + 3 <= s.len()
    &&& s[p] == '-' && s[p + 1] == '-' && s[p + 2] == '-'
    &&& (p == 0 || s[p - 1] == '\n')
    &&& (p + 3 == s.len() || s[p + 3] == '\n')
}

/// The first closing delimiter of the front matter in `s`, if any.
pub open spec fn end_delim(s: Seq<char>) -> Option<int> {
    if exists|p: int| is_delim_at(s, p) {
        Some(choose|p: int| is_delim_at(s, p) && forall|q: int| 0 <= q < p ==> !is_delim_at(s, q))
    } else {
        None
    }
}

pub open spec fn open_delim() -> Seq<char> {
    seq!['-', '-', '-', '\n']
}

/// What [`split`] returns: front matter and body when the text starts with
/// `"---\n"` and a later line is exactly `"---"`; otherwise no front matter
/// and the whole text.
pub open spec fn split_spec(content: Seq<char>) -> (Option<FrontmatterModel>, Seq<char>) {
    if !starts_with(content, open_delim()) {
        (None, content)
    } else {
        let rest = content.skip(4);
        match end_delim(rest) {
            None => (None, content),
            Some(p) => {
                let body = if p + 3 < rest.len() {
                    rest.skip(p + 4)
                } else {
                    seq![]
                };
                (Some(parse_block(rest.take(p))), body)
            },
        }
    }
}

// ---------------------------------------------------------------------------
// Executable code
// ---------------------------------------------------------------------------

fn unquote_chars(v: &[char], lo: usize, hi: usize) -> (r: Vec<char>)
    requires
        lo <= hi <= v@.len(),
    ensures
        r@ == unquote(v@.subrange(lo as int, hi as int)),
{
    let (a, b) = trim_idx(v, lo, hi);
    if b - a >= 2 && ((v[a] == '"' && v[b - 1] == '"') || (v[a] == '\'' && v[b - 1] == '\'')) {
        assert(v@.subrange(a as int, b as int).subrange(1, (b - a) - 1) =~= v@.subrange(
            a + 1,
            b - 1,
        ));
        slice_copy(v, a + 1, b - 1)
    } else {
        slice_copy(v, a, b)
    }
}

fn parse_bool_chars(v: &[char], lo: usize, hi: usize) -> (r: Option<bool>)
    requires
        lo <= hi <= v@.len(),
    ensures
        r == parse_bool(v@.subrange(lo as int, hi as int)),
{
    let (a, b) = trim_idx(v, lo, hi);
    let mut l: Vec<char> = Vec::new();
    let mut i = a;
    while i < b
        invariant
            a <= i <= b <= v@.len(),
            l@ == lower(v@.subrange(a as int, i as int)),
        decreases b - i,
    {
        l.push(ascii_lower_exec(v[i]));
        i = i + 1;
        assert(l@ =~= lower(v@.subrange(a as int, i as int)));
    }
    if chars_eq(&l, &['t', 'r', 'u', 'e']) || chars_eq(&l, &['y', 'e', 's']) {
        Some(true)
    } else if chars_eq(&l, &['f', 'a', 'l', 's', 'e']) || chars_eq(&l, &['n', 'o']) {
        Some(false)
    } else {
        None
    }
}

fn parse_inline_list_chars(v: &[char], lo: usize, hi: usize) -> (r: Vec<String>)
    requires
        lo <= hi <= v@.len(),
    ensures
        strings_view(r@) == parse_inline_list(v@.subrange(lo as int, hi as int)),
{
    let (a, b) = trim_idx(v, lo, hi);
    let mut out: Vec<String> = Vec::new();
    if b - a >= 2 && v[a] == '[' && v[b - 1] == ']' {
        let inner = slice_copy(v, a + 1, b - 1);
        assert(v@.subrange(a as int, b as int).subrange(1, (b - a) - 1) =~= inner@);
        let pieces = split_chars(&inner, ',');
        let mut i: usize = 0;
        assert(vv(&pieces).skip(0) =~= vv(&pieces));
        assert(strings_view(out@) =~= Seq::<Seq<char>>::empty());
        while i < pieces.len()
            invariant
                i <= pieces@.len(),
                strings_view(out@) + list_items(vv(&pieces).skip(i as int)) == list_items(
                    vv(&pieces),
                ),
            decreases pieces@.len() - i,
        {
            let p = &pieces[i];
            let ghost rest = vv(&pieces).skip(i as int);
            assert(rest[0] == p@);
            assert(rest.drop_first() =~= vv(&pieces).skip(i + 1));
            assert(p@.subrange(0, p@.len() as int) =~= p@);
            let (c, d) = trim_idx(p, 0, p.len());
            if c < d {
                let u = unquote_chars(p, c, d);
                let ghost before = strings_view(out@);
                out.push(from_chars(&u));
                assert(strings_view(out@) =~= before + seq![u@]);
            }
            i = i + 1;
        }
        assert(vv(&pieces).skip(i as int) =~= Seq::<Seq<char>>::empty());
        assert(strings_view(out@) + Seq::<Seq<char>>::empty() =~= strings_view(out@));
        out
    } else {
        let u = unquote_chars(v, a, b);
        out.push(from_chars(&u));
        assert(strings_view(out@) =~= seq![u@]);
        out
    }
}

pub proof fn lemma_ltrim_idempotent(s: Seq<char>)
    ensures
        ltrim(ltrim(s)) == ltrim(s),
    decreases s.len(),
{
    if s.len() > 0 && crate::strs::is_ws(s[0]) {
        lemma_ltrim_idempotent(s.drop_first());
    }
}

pub proof fn lemma_rtrim_idempotent(s: Seq<char>)
    ensures
        crate::strs::rtrim(crate::strs::rtrim(s)) == crate::strs::rtrim(s),
    decreases s.len(),
{
    if s.len() > 0 && crate::strs::is_ws(s.last()) {
        lemma_rtrim_idempotent(s.drop_last());
    }
}

proof fn lemma_rtrim_prefix(s: Seq<char>)
    ensures
        crate::strs::rtrim(s).len() <= s.len(),
        crate::strs::rtrim(s) == s.subrange(0, crate::strs::rtrim(s).len() as int),
    decreases s.len(),
{
    if s.len() > 0 && crate::strs::is_ws(s.last()) {
        lemma_rtrim_prefix(s.drop_last());
        let k = crate::strs::rtrim(s).len() as int;
        assert(s.drop_last().subrange(0, k) =~= s.subrange(0, k));
    } else {
        assert(s.subrange(0, s.len() as int) =~= s);
    }
}

proof fn lemma_ltrim_head(s: Seq<char>)
    ensures
        ltrim(s).len() == 0 || !crate::strs::is_ws(ltrim(s)[0]),
    decreases s.len(),
{
    if s.len() > 0 && crate::strs::is_ws(s[0]) {
        lemma_ltrim_head(s.drop_first());
    }
}

proof fn lemma_trim_idempotent(s: Seq<char>)
    ensures
        trim(trim(s)) == trim(s),
{
    let x = ltrim(s);
    let r = crate::strs::rtrim(x);
    lemma_ltrim_head(s);
    lemma_rtrim_prefix(x);
    if r.len() > 0 {
        assert(r[0] == x[0]);
    }
    assert(ltrim(r) == r);
    lemma_rtrim_idempotent(x);
}

/// Law: a `key: value` line for `tags`, `related` or `aliases` whose value is
/// not empty and not a bracketed `[..]` list sets that field to the list of
/// one item, the value unquoted; the other fields are left as they were.
pub proof fn lemma_single_value_list(ls: Seq<Seq<char>>, fm: FrontmatterModel, t: Seq<char>)
    requires
        ls.len() > 0,
        t == ltrim(ls[0]),
        t.len() > 0,
        t[0] != '#',
        first_index_of(t, ':') < t.len(),
        value_of(t).len() > 0,
        !(value_of(t)[0] == '[' && value_of(t).last() == ']'),
    ensures
        key_of(t) == seq!['t', 'a', 'g', 's'] ==> parse_lines(ls, fm)
            == parse_lines(ls.drop_first(), FrontmatterModel { tags: seq![unquote(value_of(t))], ..fm }),
        key_of(t) == seq!['r', 'e', 'l', 'a', 't', 'e', 'd'] ==> parse_lines(ls, fm)
            == parse_lines(ls.drop_first(), FrontmatterModel { related: seq![unquote(value_of(t))], ..fm }),
        key_of(t) == seq!['a', 'l', 'i', 'a', 's', 'e', 's'] ==> parse_lines(ls, fm)
            == parse_lines(ls.drop_first(), FrontmatterModel { aliases: seq![unquote(value_of(t))], ..fm }),
{
    lemma_trim_idempotent(t.skip(first_index_of(t, ':') + 1));
    assert(trim(value_of(t)) == value_of(t));
    assert(parse_inline_list(value_of(t)) == seq![unquote(value_of(t))]);
}

proof fn lemma_split_none(x: Seq<char>)
    requires
        forall|k: int| 0 <= k < x.len() ==> #[trigger] x[k] != ',',
    ensures
        split_on(x, ',') == seq![x],
{
    crate::strs::lemma_first_index_of(x, ',', x.len() as int);
}

/// Law: a bracketed inline list `[x, y]` (neither item holding a comma, both
/// non-blank) gives the two items, each trimmed and unquoted, in order; `[x]`
/// gives the one item, and `[]` gives no item.
pub proof fn lemma_bracket_list(x: Seq<char>, y: Seq<char>)
    requires
        forall|k: int| 0 <= k < x.len() ==> #[trigger] x[k] != ',',
        forall|k: int| 0 <= k < y.len() ==> #[trigger] y[k] != ',',
        trim(x).len() > 0,
        trim(y).len() > 0,
    ensures
        parse_inline_list(seq!['['] + x + seq![','] + y + seq![']']) == seq![unquote(x), unquote(y)],
        parse_inline_list(seq!['['] + x + seq![']']) == seq![unquote(x)],
        parse_inline_list(seq!['[', ']']) == Seq::<Seq<char>>::empty(),
{
    lemma_trim_idempotent(x);
    lemma_trim_idempotent(y);
    // two items
    let inner = x + seq![','] + y;
    let v = seq!['['] + inner + seq![']'];
    assert(ltrim(v) == v);
    assert(crate::strs::rtrim(v) == v);
    assert(v.subrange(1, v.len() - 1) =~= inner);
    assert forall|k: int| 0 <= k < x.len() implies inner[k] != ',' by {
        assert(inner[k] == x[k]);
    }
    crate::strs::lemma_first_index_of(inner, ',', x.len() as int);
    assert(inner.take(x.len() as int) =~= x);
    assert(inner.skip(x.len() as int + 1) =~= y);
    lemma_split_none(y);
    assert(split_on(inner, ',') == seq![x] + seq![y]);
    assert(split_on(inner, ',') =~= seq![x, y]);
    assert(seq![x, y].drop_first() =~= seq![y]);
    assert(seq![y].drop_first() =~= Seq::<Seq<char>>::empty());
    assert(seq![y][0] == y);
    assert(unquote(trim(y)) == unquote(y));
    assert(list_items(Seq::<Seq<char>>::empty()) == Seq::<Seq<char>>::empty());
    assert(list_items(seq![y]) == seq![unquote(trim(y))] + Seq::<Seq<char>>::empty());
    assert(list_items(seq![y]) =~= seq![unquote(y)]);
    assert(seq![x, y][0] == x);
    assert(unquote(trim(x)) == unquote(x));
    assert(list_items(seq![x, y]) == seq![unquote(trim(x))] + list_items(seq![y]));
    assert(list_items(seq![x, y]) =~= seq![unquote(x), unquote(y)]);
    assert(v =~= seq!['['] + x + seq![','] + y + seq![']']);
    assert(trim(v) == v);
    assert(parse_inline_list(v) == list_items(split_on(inner, ',')));
    // one item
    let w = seq!['['] + x + seq![']'];
    assert(ltrim(w) == w);
    assert(crate::strs::rtrim(w) == w);
    assert(w.subrange(1, w.len() - 1) =~= x);
    lemma_split_none(x);
    assert(seq![x].drop_first() =~= Seq::<Seq<char>>::empty());
    assert(list_items(seq![x]) =~= seq![unquote(x)]);
    // none
    let e = seq!['[', ']'];
    assert(ltrim(e) == e);
    assert(crate::strs::rtrim(e) == e);
    assert(e.subrange(1, 1) =~= Seq::<char>::empty());
    lemma_split_none(Seq::<char>::empty());
    assert(trim(Seq::<char>::empty()) =~= Seq::<char>::empty());
    assert(seq![Seq::<char>::empty()].drop_first() =~= Seq::<Seq<char>>::empty());
}

fn key_is(v: &[char], lo: usize, hi: usize, k: &[char]) -> (b: bool)
    requires
        lo <= hi <= v@.len(),
    ensures
        b == (v@.subrange(lo as int, hi as int) == k@),
{
    let c = slice_copy(v, lo, hi);
    chars_eq(&c, k)
}

fn apply_scalar_exec(fm: &mut Frontmatter, v: &[char], klo: usize, khi: usize, vlo: usize, vhi: usize)
    requires
        klo <= khi <= v@.len(),
        vlo <= vhi <= v@.len(),
    ensures
        final(fm)@ == apply_scalar(
            old(fm)@,
            v@.subrange(klo as int, khi as int),
            v@.subrange(vlo as int, vhi as int),
        ),
{
    let ghost key = v@.subrange(klo as int, khi as int);
    if key_is(v, klo, khi, &['w', 'i', 'k', 'i']) {
        fm.wiki = parse_bool_chars(v, vlo, vhi);
    } else if key_is(v, klo, khi, &['t', 'i', 't', 'l', 'e']) {
        fm.title = Some(from_chars(&unquote_chars(v, vlo, vhi)));
    } else if key_is(v, klo, khi, &['s', 'u', 'm', 'm', 'a', 'r', 'y']) {
        fm.summary = Some(from_chars(&unquote_chars(v, vlo, vhi)));
    } else if key_is(v, klo, khi, &['t', 'a', 'g', 's']) {
        fm.tags = parse_inline_list_chars(v, vlo, vhi);
    } else if key_is(v, klo, khi, &['r', 'e', 'l', 'a', 't', 'e', 'd']) {
        fm.related = parse_inline_list_chars(v, vlo, vhi);
    } else if key_is(v, klo, khi, &['a', 'l', 'i', 'a', 's', 'e', 's']) {
        fm.aliases = parse_inline_list_chars(v, vlo, vhi);
    } else if key_is(v, klo, khi, &['f', 'r', 'a', 'g', 'm', 'e', 'n', 't']) {
        fm.fragment = parse_bool_chars(v, vlo, vhi);
    }
}

fn apply_list_exec(fm: &mut Frontmatter, v: &[char], klo: usize, khi: usize, items: Vec<String>)
    requires
        klo <= khi <= v@.len(),
    ensures
        final(fm)@ == apply_list(old(fm)@, v@.subrange(klo as int, khi as int), strings_view(items@)),
{
    if key_is(v, klo, khi, &['t', 'a', 'g', 's']) {
        fm.tags = items;
    } else if key_is(v, klo, khi, &['r', 'e', 'l', 'a', 't', 'e', 'd']) {
        fm.related = items;
    } else if key_is(v, klo, khi, &['a', 'l', 'i', 'a', 's', 'e', 's']) {
        fm.aliases = items;
    }
}


/// Parse a frontmatter block.
pub fn parse(block: &str) -> (fm: Frontmatter)
    ensures
        fm@ == parse_block(block@),
{
    let v = to_chars(block);
    let ls = lines_chars(&v);
    let mut fm = empty_frontmatter();
    let mut i: usize = 0;
    assert(vv(&ls).skip(0) =~= vv(&ls));
    while i < ls.len()
        invariant
            i <= ls@.len(),
            parse_lines(vv(&ls).skip(i as int), fm@) == parse_block(block@),
            vv(&ls) == lines(block@),
        decreases ls@.len() - i,
    {
        let line = &ls[i];
        let ghost rest = vv(&ls).skip(i as int);
        assert(rest[0] == line@);
        assert(rest.drop_first() =~= vv(&ls).skip(i + 1));
        assert(line@.subrange(0, line@.len() as int) =~= line@);
        let t = ltrim_idx(line, 0, line.len());
        let ghost ts = line@.subrange(t as int, line@.len() as int);
        if t == line.len() || line[t] == '#' {
            i = i + 1;
            continue;
        }
        let colon = find_char(line, t, line.len(), ':');
        if colon == line.len() {
            i = i + 1;
            continue;
        }
        let (ka, kb) = trim_idx(line, t, colon);
        let (va, vb) = trim_idx(line, colon + 1, line.len());
        proof {
            assert(ts.take(colon - t) =~= line@.subrange(t as int, colon as int));
            assert(ts.skip(colon - t + 1) =~= line@.subrange(colon + 1, line@.len() as int));
        }
        if va == vb {
            let mut items: Vec<String> = Vec::new();
            let mut j = i + 1;
            let ghost base = vv(&ls).skip(i + 1);
            assert(vv(&ls).skip(j as int) =~= base);
            assert(strings_view(items@) =~= Seq::<Seq<char>>::empty());
            loop
                invariant
                    i + 1 <= j <= ls@.len(),
                    base == vv(&ls).skip(i + 1),
                    strings_view(items@) + collect_items(vv(&ls).skip(j as int)).0 == collect_items(base).0,
                    (j - (i + 1)) + collect_items(vv(&ls).skip(j as int)).1 == collect_items(base).1,
                ensures
                    i + 1 <= j <= ls@.len(),
                    strings_view(items@) == collect_items(base).0,
                    (j - (i + 1)) == collect_items(base).1,
                decreases ls@.len() - j,
            {
                if j >= ls.len() {
                    assert(vv(&ls).skip(j as int) =~= Seq::<Seq<char>>::empty());
                    assert(strings_view(items@) + Seq::<Seq<char>>::empty() =~= strings_view(items@));
                    break;
                }
                let l2 = &ls[j];
                let ghost r2 = vv(&ls).skip(j as int);
                assert(r2[0] == l2@);
                assert(r2.drop_first() =~= vv(&ls).skip(j + 1));
                assert(l2@.subrange(0, l2@.len() as int) =~= l2@);
                let t2 = ltrim_idx(l2, 0, l2.len());
                if starts_with_at(l2, t2, l2.len(), &['-', ' ']) {
                    assert(l2@.subrange(t2 as int, l2@.len() as int).skip(2) =~= l2@.subrange(t2 + 2, l2@.len() as int));
                    let u = unquote_chars(l2, t2 + 2, l2.len());
                    let ghost before = strings_view(items@);
                    items.push(from_chars(&u));
                    assert(strings_view(items@) =~= before + seq![u@]);
                    j = j + 1;
                } else if t2 == l2.len() {
                    j = j + 1;
                } else {
                    assert(strings_view(items@) + Seq::<Seq<char>>::empty() =~= strings_view(items@));
                    break;
                }
            }
            proof {
                let c = collect_items(base);
                assert(rest.skip(1 + c.1 as int) =~= vv(&ls).skip(j as int));
            }
            apply_list_exec(&mut fm, line, ka, kb, items);
            i = j;
        } else {
            apply_scalar_exec(&mut fm, line, ka, kb, va, vb);
            i = i + 1;
        }
    }
    assert(vv(&ls).skip(i as int) =~= Seq::<Seq<char>>::empty());
    fm
}

fn is_delim_exec(v: &[char], p: usize) -> (b: bool)
    requires
        p <= v@.len(),
    ensures
        b == is_delim_at(v@, p as int),
{
    v.len() >= 3 && p <= v.len() - 3 && v[p] == '-' && v[p + 1] == '-' && v[p + 2] == '-' && (p == 0 || v[p - 1]
        == '\n') && (p + 3 == v.len() || v[p + 3] == '\n')
}

/// Split a leading YAML frontmatter block from the body:
///
/// - only a file that starts with `---\n` has frontmatter
/// - a `---` line of its own closes it
/// - without one the result is `(None, content)`
pub fn split(content: &str) -> (r: (Option<Frontmatter>, String))
    ensures
        (match r.0 {
            Some(fm) => Some(fm@),
            None => None,
        }) == split_spec(content@).0,
        r.1@ == split_spec(content@).1,
{
    let v = to_chars(content);
    assert(v@.subrange(0, v@.len() as int) =~= v@);
    if !starts_with_at(&v, 0, v.len(), &['-', '-', '-', '\n']) {
        return (None, from_chars(&v));
    }
    let rest = slice_copy(&v, 4, v.len());
    assert(rest@ =~= content@.skip(4));
    let mut p: usize = 0;
    while p < rest.len() && !is_delim_exec(&rest, p)
        invariant
            p <= rest@.len(),
            forall|q: int| 0 <= q < p ==> !is_delim_at(rest@, q),
        decreases rest@.len() - p,
    {
        p = p + 1;
    }
    if p >= rest.len() {
        assert(!exists|q: int| is_delim_at(rest@, q)) by {
            assert forall|q: int| !is_delim_at(rest@, q) by {
                if 0 <= q < p {
                } else {
                }
            }
        }
        return (None, from_chars(&v));
    }
    proof {
        assert(is_delim_at(rest@, p as int));
        let w = choose|q: int| is_delim_at(rest@, q) && forall|r: int| 0 <= r < q ==> !is_delim_at(rest@, r);
        assert(is_delim_at(rest@, w) && forall|r: int| 0 <= r < w ==> !is_delim_at(rest@, r));
        assert(w == p) by {
            if w < p {
            } else if w > p {
            }
        }
    }
    let block = slice_copy(&rest, 0, p);
    assert(block@ =~= rest@.take(p as int));
    let fm = parse(&from_chars(&block));
    let body = if p + 3 < rest.len() {
        slice_copy(&rest, p + 4, rest.len())
    } else {
        Vec::new()
    };
    proof {
        if p + 3 < rest@.len() {
            assert(body@ =~= rest@.skip(p + 4));
        } else {
            assert(body@ =~= Seq::<char>::empty());
        }
    }
    (Some(fm), from_chars(&body))
}

} // verus!
