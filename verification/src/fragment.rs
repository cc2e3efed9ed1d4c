//! Splitting a note's body into fragments at its h2 headings (and, for long
//! sections, at their h3 headings).
use vstd::prelude::*;
use crate::link::slug::{slug_of, slugify};
use crate::notes::headings::{is_fence, is_fence_chars, atx_of, parse_atx_chars};
use crate::notes::ingest::NoteData;
use crate::num::{first_free, first_free_name, numbered};
use crate::strs::{
    chars_eq, first_index_of, from_chars, join, join_range, lemma_first_index_bounds, split_chars, split_on, to_chars, vv,
};

verus! {

broadcast use vstd::seq_lib::group_seq_properties;

/// The body length, in lines, above which an h2 section is split again at its
/// h3 headings (it then becomes a shell page).
pub const H3_RESPLIT_THRESHOLD: usize = 300;

/// How one note is split into fragments.
#[derive(Debug, Clone, PartialEq, Eq)]
pub struct FragmentTree {
    /// The body of the entry page: the preface when the note is split, else the whole note.
    pub preface: String,
    /// The h2 fragments; empty when the note is not split.
    pub fragments: Vec<Fragment>,
    /// Whether the note was left whole.
    pub non_fragmented: bool,
}

/// An h2 fragment: a plain section, or a shell split again at its h3 headings.
#[derive(Debug, Clone, PartialEq, Eq)]
pub enum Fragment {
    /// A plain h2 section: its body runs from the h2 line up to the next h2.
    H2 { heading: String, slug: String, body: String },
    /// An h2 section split at its h3 headings; its page becomes a shell.
    Shell { heading: String, slug: String, preface: String, children: Vec<H3Fragment> },
}

/// An h3 child fragment of a shell.
#[derive(Debug, Clone, PartialEq, Eq)]
pub struct H3Fragment {
    pub heading: String,
    pub slug: String,
    pub body: String,
}

/// The content of a fragment.
pub enum FragmentModel {
    H2 { heading: Seq<char>, slug: Seq<char>, body: Seq<char> },
    Shell {
        heading: Seq<char>,
        slug: Seq<char>,
        preface: Seq<char>,
        children: Seq<(Seq<char>, Seq<char>, Seq<char>)>,
    },
}

impl View for H3Fragment {
    type V = (Seq<char>, Seq<char>, Seq<char>);

    open spec fn view(&self) -> (Seq<char>, Seq<char>, Seq<char>) {
        (self.heading@, self.slug@, self.body@)
    }
}

pub open spec fn children_view(c: Seq<H3Fragment>) -> Seq<(Seq<char>, Seq<char>, Seq<char>)> {
    c.map_values(|h: H3Fragment| h@)
}

impl View for Fragment {
    type V = FragmentModel;

    open spec fn view(&self) -> FragmentModel {
        match self {
            Fragment::H2 { heading, slug, body } => FragmentModel::H2 {
                heading: heading@,
                slug: slug@,
                body: body@,
            },
            Fragment::Shell { heading, slug, preface, children } => FragmentModel::Shell {
                heading: heading@,
                slug: slug@,
                preface: preface@,
                children: children_view(children@),
            },
        }
    }
}

pub open spec fn fragments_view(f: Seq<Fragment>) -> Seq<FragmentModel> {
    f.map_values(|x: Fragment| x@)
}

impl View for FragmentTree {
    type V = (Seq<char>, Seq<FragmentModel>, bool);

    open spec fn view(&self) -> (Seq<char>, Seq<FragmentModel>, bool) {
        (self.preface@, fragments_view(self.fragments@), self.non_fragmented)
    }
}

impl Fragment {
    pub open spec fn heading_spec(&self) -> Seq<char> {
        match self {
            Fragment::H2 { heading, .. } => heading@,
            Fragment::Shell { heading, .. } => heading@,
        }
    }

    pub open spec fn slug_spec(&self) -> Seq<char> {
        match self {
            Fragment::H2 { slug, .. } => slug@,
            Fragment::Shell { slug, .. } => slug@,
        }
    }

    pub fn heading(&self) -> (r: &str)
        ensures
            r@ == self.heading_spec(),
    {
        match self {
            Fragment::H2 { heading, .. } => heading.as_str(),
            Fragment::Shell { heading, .. } => heading.as_str(),
        }
    }

    pub fn slug(&self) -> (r: &str)
        ensures
            r@ == self.slug_spec(),
    {
        match self {
            Fragment::H2 { slug, .. } => slug.as_str(),
            Fragment::Shell { slug, .. } => slug.as_str(),
        }
    }
}

// ---------------------------------------------------------------------------
// Specification
// ---------------------------------------------------------------------------

/// A heading marker: line index, level, text.
pub type MarkerV = (int, u8, Seq<char>);

/// The h2/h3 markers of lines `ls` (the first having index `start`).
pub open spec fn markers_from(ls: Seq<Seq<char>>, start: int, in_fence: bool) -> Seq<MarkerV>
    decreases ls.len(),
{
    if ls.len() == 0 {
        seq![]
    } else if is_fence(ls[0]) {
        markers_from(ls.drop_first(), start + 1, !in_fence)
    } else if in_fence {
        markers_from(ls.drop_first(), start + 1, in_fence)
    } else {
        match atx_of(ls[0]) {
            Some((l, t)) => if 2 <= l && l <= 3 {
                seq![(start, l, t)] + markers_from(ls.drop_first(), start + 1, in_fence)
            } else {
                markers_from(ls.drop_first(), start + 1, in_fence)
            },
            None => markers_from(ls.drop_first(), start + 1, in_fence),
        }
    }
}

/// The lines of a body as `split('\n')` gives them.
pub open spec fn body_lines(body: Seq<char>) -> Seq<Seq<char>> {
    split_on(body, '\n')
}

/// h2/h3 headings of a body outside fenced code, with their line indices.
pub open spec fn markers_of(body: Seq<char>) -> Seq<MarkerV> {
    markers_from(body_lines(body), 0, false)
}

/// The markers of level `l`, in order.
pub open spec fn with_level(ms: Seq<MarkerV>, l: u8) -> Seq<MarkerV>
    decreases ms.len(),
{
    if ms.len() == 0 {
        seq![]
    } else if ms[0].1 == l {
        seq![ms[0]] + with_level(ms.drop_first(), l)
    } else {
        with_level(ms.drop_first(), l)
    }
}

/// The h3 markers strictly between lines `s` and `e`, in order.
pub open spec fn h3_between(ms: Seq<MarkerV>, s: int, e: int) -> Seq<MarkerV>
    decreases ms.len(),
{
    if ms.len() == 0 {
        seq![]
    } else if ms[0].1 == 3 && s < ms[0].0 && ms[0].0 < e {
        seq![ms[0]] + h3_between(ms.drop_first(), s, e)
    } else {
        h3_between(ms.drop_first(), s, e)
    }
}

/// Lines `s..e` joined with `'\n'` (empty when `s >= e`).
pub open spec fn join_slice(ls: Seq<Seq<char>>, s: int, e: int) -> Seq<char> {
    if s >= e {
        seq![]
    } else {
        join(ls.subrange(s, e), seq!['\n'])
    }
}

/// The slug base of a heading: its slug, or `"section"` when that is empty.
pub open spec fn slug_for_heading(h: Seq<char>) -> Seq<char> {
    if slug_of(h).len() == 0 {
        seq!['s', 'e', 'c', 't', 'i', 'o', 'n']
    } else {
        slug_of(h)
    }
}

/// `base` when unused, else `base-N` with the least free `N >= 1`.
pub open spec fn dedup(base: Seq<char>, used: Set<Seq<char>>) -> Seq<char> {
    if !used.contains(base) {
        base
    } else {
        numbered(base + seq!['-'], first_free(base + seq!['-'], seq![], used), seq![])
    }
}

/// Slugs for the bases in order, each deduplicated against all earlier ones.
pub open spec fn assign(bases: Seq<Seq<char>>, used: Set<Seq<char>>) -> Seq<Seq<char>>
    decreases bases.len(),
{
    if bases.len() == 0 {
        seq![]
    } else {
        let s = dedup(bases[0], used);
        seq![s] + assign(bases.drop_first(), used.insert(s))
    }
}

/// Line index just after the `k`-th h2 section.
pub open spec fn h2_end(ls: Seq<Seq<char>>, h2s: Seq<MarkerV>, k: int) -> int {
    if k + 1 < h2s.len() {
        h2s[k + 1].0
    } else {
        ls.len() as int
    }
}

/// The `k`-th h2 section is longer than 300 lines and holds two or more h3.
pub open spec fn is_shell(ls: Seq<Seq<char>>, ms: Seq<MarkerV>, h2s: Seq<MarkerV>, k: int) -> bool {
    let s = h2s[k].0;
    let e = h2_end(ls, h2s, k);
    e - s - 1 > H3_RESPLIT_THRESHOLD && h3_between(ms, s, e).len() >= 2
}

/// Heading and body of the `j`-th h3 child of the `k`-th h2 section.
pub open spec fn child_raw(ls: Seq<Seq<char>>, ms: Seq<MarkerV>, h2s: Seq<MarkerV>, k: int, j: int) -> (Seq<char>, Seq<char>) {
    let e = h2_end(ls, h2s, k);
    let h3s = h3_between(ms, h2s[k].0, e);
    let ce = if j + 1 < h3s.len() {
        h3s[j + 1].0
    } else {
        e
    };
    (h3s[j].2, join_slice(ls, h3s[j].0, ce))
}

/// The `k`-th fragment, given its slug.
pub open spec fn fragment_at(ls: Seq<Seq<char>>, ms: Seq<MarkerV>, h2s: Seq<MarkerV>, k: int, slug: Seq<char>) -> FragmentModel {
    let s = h2s[k].0;
    let e = h2_end(ls, h2s, k);
    let h3s = h3_between(ms, s, e);
    if is_shell(ls, ms, h2s, k) {
        let bases = Seq::new(h3s.len(), |j: int| slug_for_heading(h3s[j].2));
        let slugs = assign(bases, Set::empty());
        FragmentModel::Shell {
            heading: h2s[k].2,
            slug,
            preface: join_slice(ls, s, h3s[0].0),
            children: Seq::new(
                h3s.len(),
                |j: int| (child_raw(ls, ms, h2s, k, j).0, slugs[j], child_raw(ls, ms, h2s, k, j).1),
            ),
        }
    } else {
        FragmentModel::H2 { heading: h2s[k].2, slug, body: join_slice(ls, s, e) }
    }
}

/// What [`build_fragments`] returns for a body and its `fragment` setting.
pub open spec fn tree_of(body: Seq<char>, fragment_flag: Option<bool>) -> (Seq<char>, Seq<FragmentModel>, bool) {
    let ls = body_lines(body);
    let ms = markers_of(body);
    let h2s = with_level(ms, 2);
    if fragment_flag == Some(false) || h2s.len() == 0 {
        (body, seq![], true)
    } else {
        let slugs = assign(Seq::new(h2s.len(), |k: int| slug_for_heading(h2s[k].2)), Set::empty());
        (
            join_slice(ls, 0, h2s[0].0),
            Seq::new(h2s.len(), |k: int| fragment_at(ls, ms, h2s, k, slugs[k])),
            false,
        )
    }
}

// ---------------------------------------------------------------------------
// Laws
// ---------------------------------------------------------------------------

/// The text a fragment stands for: an h2 section's body, or a shell's
/// preface followed by its children's bodies, a newline apart.
pub open spec fn flat(f: FragmentModel) -> Seq<char> {
    match f {
        FragmentModel::H2 { body, .. } => body,
        FragmentModel::Shell { preface, children, .. } =>
            join(seq![preface] + children.map_values(|c: (Seq<char>, Seq<char>, Seq<char>)| c.2), seq!['\n']),
    }
}

/// The line of the first h2 heading (outside fenced code) of a body.
pub open spec fn first_h2_line(body: Seq<char>) -> int {
    with_level(markers_of(body), 2)[0].0
}

/// The parts a split note is made of, in order: its preface (unless the
/// first h2 heading is its first line), then each fragment's text.
pub open spec fn note_parts(body: Seq<char>, t: (Seq<char>, Seq<FragmentModel>, bool)) -> Seq<Seq<char>> {
    (if first_h2_line(body) == 0 { Seq::<Seq<char>>::empty() } else { seq![t.0] })
        + t.1.map_values(|f: FragmentModel| flat(f))
}

/// Marker lines strictly increasing, all within `lo..hi`.
pub open spec fn sorted_in(ms: Seq<MarkerV>, lo: int, hi: int) -> bool {
    &&& forall|i: int, j: int| 0 <= i < j < ms.len() ==> (#[trigger] ms[i]).0 < (#[trigger] ms[j]).0
    &&& forall|i: int| 0 <= i < ms.len() ==> lo <= (#[trigger] ms[i]).0 < hi
}

proof fn lemma_sorted_cons(m: MarkerV, rest: Seq<MarkerV>, lo: int, hi: int)
    requires
        lo <= m.0 < hi,
        sorted_in(rest, m.0 + 1, hi),
    ensures
        sorted_in(seq![m] + rest, lo, hi),
{
    let x = seq![m] + rest;
    assert forall|i: int, j: int| 0 <= i < j < x.len() implies (#[trigger] x[i]).0 < (#[trigger] x[j]).0 by {
        if i == 0 {
            assert(x[j] == rest[j - 1]);
        } else {
            assert(x[i] == rest[i - 1]);
            assert(x[j] == rest[j - 1]);
        }
    }
    assert forall|i: int| 0 <= i < x.len() implies lo <= (#[trigger] x[i]).0 < hi by {
        if i > 0 {
            assert(x[i] == rest[i - 1]);
        }
    }
}

proof fn lemma_sorted_weaken(ms: Seq<MarkerV>, lo: int, lo2: int, hi: int)
    requires
        sorted_in(ms, lo, hi),
        lo2 <= lo,
    ensures
        sorted_in(ms, lo2, hi),
{
}

proof fn lemma_markers_sorted(ls: Seq<Seq<char>>, start: int, in_fence: bool)
    ensures
        sorted_in(markers_from(ls, start, in_fence), start, start + ls.len()),
    decreases ls.len(),
{
    if ls.len() > 0 {
        lemma_markers_sorted(ls.drop_first(), start + 1, !in_fence);
        lemma_markers_sorted(ls.drop_first(), start + 1, in_fence);
        let r1 = markers_from(ls.drop_first(), start + 1, !in_fence);
        let r2 = markers_from(ls.drop_first(), start + 1, in_fence);
        if !is_fence(ls[0]) && !in_fence {
            match atx_of(ls[0]) {
                Some((l, t)) => if 2 <= l && l <= 3 {
                    lemma_sorted_cons((start, l, t), r2, start, start + ls.len());
                },
                None => {},
            }
        }
    }
}

proof fn lemma_with_level_sorted(ms: Seq<MarkerV>, l: u8, lo: int, hi: int)
    requires
        sorted_in(ms, lo, hi),
    ensures
        sorted_in(with_level(ms, l), lo, hi),
    decreases ms.len(),
{
    if ms.len() > 0 {
        let rest = ms.drop_first();
        assert(sorted_in(rest, ms[0].0 + 1, hi)) by {
            assert forall|i: int| 0 <= i < rest.len() implies ms[0].0 + 1 <= (#[trigger] rest[i]).0 < hi by {
                assert(rest[i] == ms[i + 1]);
            }
            assert forall|i: int, j: int| 0 <= i < j < rest.len() implies (#[trigger] rest[i]).0 < (#[trigger] rest[j]).0 by {
                assert(rest[i] == ms[i + 1]);
                assert(rest[j] == ms[j + 1]);
            }
        }
        lemma_with_level_sorted(rest, l, ms[0].0 + 1, hi);
        if ms[0].1 == l {
            lemma_sorted_cons(ms[0], with_level(rest, l), lo, hi);
        } else {
            lemma_sorted_weaken(with_level(rest, l), ms[0].0 + 1, lo, hi);
        }
    }
}

proof fn lemma_h3_between_sorted(ms: Seq<MarkerV>, s: int, e: int, lo: int, hi: int)
    requires
        sorted_in(ms, lo, hi),
    ensures
        sorted_in(h3_between(ms, s, e), s + 1, e),
        forall|i: int| 0 <= i < h3_between(ms, s, e).len() ==> lo <= (#[trigger] h3_between(ms, s, e)[i]).0,
    decreases ms.len(),
{
    if ms.len() > 0 {
        let rest = ms.drop_first();
        assert(sorted_in(rest, ms[0].0 + 1, hi)) by {
            assert forall|i: int| 0 <= i < rest.len() implies ms[0].0 + 1 <= (#[trigger] rest[i]).0 < hi by {
                assert(rest[i] == ms[i + 1]);
            }
            assert forall|i: int, j: int| 0 <= i < j < rest.len() implies (#[trigger] rest[i]).0 < (#[trigger] rest[j]).0 by {
                assert(rest[i] == ms[i + 1]);
                assert(rest[j] == ms[j + 1]);
            }
        }
        lemma_h3_between_sorted(rest, s, e, ms[0].0 + 1, hi);
        let r = h3_between(rest, s, e);
        if ms[0].1 == 3 && s < ms[0].0 && ms[0].0 < e {
            let x = seq![ms[0]] + r;
            assert forall|i: int, j: int| 0 <= i < j < x.len() implies (#[trigger] x[i]).0 < (#[trigger] x[j]).0 by {
                if i == 0 {
                    assert(x[j] == r[j - 1]);
                } else {
                    assert(x[i] == r[i - 1]);
                    assert(x[j] == r[j - 1]);
                }
            }
            assert forall|i: int| 0 <= i < x.len() implies s + 1 <= (#[trigger] x[i]).0 < e && lo <= x[i].0 by {
                if i > 0 {
                    assert(x[i] == r[i - 1]);
                }
            }
        }
    }
}

/// `join` of one part more: the parts so far, the separator, the new part.
proof fn lemma_join_push(x: Seq<Seq<char>>, y: Seq<char>, sep: Seq<char>)
    requires
        x.len() > 0,
    ensures
        join(x.push(y), sep) == join(x, sep) + sep + y,
{
    assert(x.push(y).drop_last() =~= x);
}

/// Joining two neighbouring runs of lines is joining the whole run.
proof fn lemma_join_slice_split(ls: Seq<Seq<char>>, a: int, b: int, c: int)
    requires
        0 <= a < b < c <= ls.len(),
    ensures
        join_slice(ls, a, c) == join_slice(ls, a, b) + seq!['\n'] + join_slice(ls, b, c),
    decreases c - b,
{
    if c == b + 1 {
        assert(ls.subrange(a, c) =~= ls.subrange(a, b).push(ls[b]));
        lemma_join_push(ls.subrange(a, b), ls[b], seq!['\n']);
        assert(ls.subrange(b, c) =~= seq![ls[b]]);
    } else {
        lemma_join_slice_split(ls, a, b, c - 1);
        lemma_join_slice_split(ls, b, c - 1, c);
        assert(ls.subrange(a, c) =~= ls.subrange(a, c - 1).push(ls[c - 1]));
        lemma_join_push(ls.subrange(a, c - 1), ls[c - 1], seq!['\n']);
        assert(ls.subrange(b, c) =~= ls.subrange(b, c - 1).push(ls[c - 1]));
        lemma_join_push(ls.subrange(b, c - 1), ls[c - 1], seq!['\n']);
        assert(ls.subrange(c - 1, c) =~= seq![ls[c - 1]]);
    }
}

/// Splitting a text at `c` and joining the pieces with `c` gives it back.
proof fn lemma_join_split(s: Seq<char>, c: char)
    ensures
        join(split_on(s, c), seq![c]) == s,
        split_on(s, c).len() > 0,
    decreases s.len(),
{
    let j = first_index_of(s, c);
    lemma_first_index_bounds(s, c);
    if j >= s.len() {
    } else {
        let rest = s.skip(j + 1);
        lemma_join_split(rest, c);
        let parts = split_on(rest, c);
        lemma_join_cons(s.take(j), parts, seq![c]);
        assert(s =~= s.take(j) + seq![c] + rest);
    }
}

/// `join` of a first part and more parts.
proof fn lemma_join_cons(a: Seq<char>, rest: Seq<Seq<char>>, sep: Seq<char>)
    requires
        rest.len() > 0,
    ensures
        join(seq![a] + rest, sep) == a + sep + join(rest, sep),
    decreases rest.len(),
{
    let x = seq![a] + rest;
    if rest.len() == 1 {
        assert(x.drop_last() =~= seq![a]);
        assert(join(seq![a], sep) == a);
        assert(join(rest, sep) == rest[0]);
        assert(x.last() == rest[0]);
    } else {
        lemma_join_cons(a, rest.drop_last(), sep);
        assert(x.drop_last() =~= seq![a] + rest.drop_last());
        assert(x.last() == rest.last());
        assert(join(x, sep) == join(x.drop_last(), sep) + sep + x.last());
        assert(join(rest, sep) == join(rest.drop_last(), sep) + sep + rest.last());
        assert(join(x, sep) =~= a + sep + join(rest, sep));
    }
}

/// The lines of a body, joined again, are the body.
proof fn lemma_whole(body: Seq<char>)
    ensures
        body_lines(body).len() > 0,
        join_slice(body_lines(body), 0, body_lines(body).len() as int) == body,
{
    lemma_join_split(body, '\n');
    let ls = body_lines(body);
    assert(ls.subrange(0, ls.len() as int) =~= ls);
}

/// A slug: its base, or its base with `-N` for some `N >= 1`.
pub open spec fn slug_from_base(slug: Seq<char>, base: Seq<char>) -> bool {
    slug == base || exists|n: nat| n >= 1 && slug == #[trigger] numbered(base + seq!['-'], n, seq![])
}

/// Law: the slugs given to a run of bases are pairwise distinct, none of
/// them already used, each the base itself or the base with the least free
/// `-N`.
pub proof fn lemma_assign_unique(bases: Seq<Seq<char>>, used: Set<Seq<char>>)
    requires
        used.finite(),
    ensures
        assign(bases, used).len() == bases.len(),
        forall|i: int, j: int| 0 <= i < j < bases.len() ==> #[trigger] assign(bases, used)[i] != #[trigger] assign(bases, used)[j],
        forall|i: int| 0 <= i < bases.len() ==> !used.contains(#[trigger] assign(bases, used)[i]),
        forall|i: int| 0 <= i < bases.len() ==> slug_from_base(#[trigger] assign(bases, used)[i], bases[i]),
    decreases bases.len(),
{
    if bases.len() > 0 {
        let b = bases[0];
        let s = dedup(b, used);
        if used.contains(b) {
            crate::num::lemma_first_free_exists(b + seq!['-'], seq![], used);
            let n = first_free(b + seq!['-'], seq![], used);
            assert(s == numbered(b + seq!['-'], n, seq![]));
        }
        assert(!used.contains(s));
        assert(slug_from_base(s, b));
        let rest = assign(bases.drop_first(), used.insert(s));
        lemma_assign_unique(bases.drop_first(), used.insert(s));
        let all = assign(bases, used);
        assert(all == seq![s] + rest);
        assert forall|i: int, j: int| 0 <= i < j < bases.len() implies #[trigger] all[i] != #[trigger] all[j] by {
            if i == 0 {
                assert(all[j] == rest[j - 1]);
                assert(!used.insert(s).contains(rest[j - 1]));
            } else {
                assert(all[i] == rest[i - 1]);
                assert(all[j] == rest[j - 1]);
            }
        }
        assert forall|i: int| 0 <= i < bases.len() implies !used.contains(#[trigger] all[i]) by {
            if i > 0 {
                assert(all[i] == rest[i - 1]);
                assert(!used.insert(s).contains(rest[i - 1]));
            }
        }
        assert forall|i: int| 0 <= i < bases.len() implies slug_from_base(#[trigger] all[i], bases[i]) by {
            if i > 0 {
                assert(all[i] == rest[i - 1]);
                assert(bases.drop_first()[i - 1] == bases[i]);
            }
        }
    }
}

/// The slug of a fragment.
pub open spec fn model_slug(f: FragmentModel) -> Seq<char> {
    match f {
        FragmentModel::H2 { slug, .. } => slug,
        FragmentModel::Shell { slug, .. } => slug,
    }
}

/// Law: the fragments of a note have pairwise distinct slugs, each the
/// slug of its heading (or `section`) with the least free `-N` where taken,
/// and so do the children of each shell.
pub proof fn lemma_fragment_slugs_unique(body: Seq<char>, flag: Option<bool>)
    ensures
        ({
            let fs = tree_of(body, flag).1;
            &&& forall|i: int, j: int| 0 <= i < j < fs.len() ==> model_slug(#[trigger] fs[i]) != model_slug(#[trigger] fs[j])
            &&& forall|i: int| 0 <= i < fs.len() ==> (#[trigger] fs[i] matches FragmentModel::Shell { children, .. } ==>
                forall|a: int, b: int| 0 <= a < b < children.len() ==> (#[trigger] children[a]).1 != (#[trigger] children[b]).1)
        }),
{
    let t = tree_of(body, flag);
    if !t.2 {
        let ls = body_lines(body);
        let ms = markers_of(body);
        let h2s = with_level(ms, 2);
        let n = h2s.len();
        let bases = Seq::new(n, |k: int| slug_for_heading(h2s[k].2));
        let slugs = assign(bases, Set::empty());
        lemma_assign_unique(bases, Set::empty());
        let fs = t.1;
        assert forall|i: int| 0 <= i < fs.len() implies model_slug(#[trigger] fs[i]) == slugs[i] by {
            assert(fs[i] == fragment_at(ls, ms, h2s, i, slugs[i]));
        }
        assert forall|i: int, j: int| 0 <= i < j < fs.len() implies model_slug(#[trigger] fs[i]) != model_slug(#[trigger] fs[j]) by {
            assert(model_slug(fs[i]) == slugs[i]);
            assert(model_slug(fs[j]) == slugs[j]);
        }
        assert forall|i: int| 0 <= i < fs.len() implies (#[trigger] fs[i] matches FragmentModel::Shell { children, .. } ==>
            forall|a: int, b: int| 0 <= a < b < children.len() ==> (#[trigger] children[a]).1 != (#[trigger] children[b]).1) by {
            assert(fs[i] == fragment_at(ls, ms, h2s, i, slugs[i]));
            if is_shell(ls, ms, h2s, i) {
                let s = h2s[i].0;
                let e = h2_end(ls, h2s, i);
                let h3s = h3_between(ms, s, e);
                let cb = Seq::new(h3s.len(), |j: int| slug_for_heading(h3s[j].2));
                lemma_assign_unique(cb, Set::empty());
            }
        }
    } else {
        assert(t.1 =~= Seq::<FragmentModel>::empty());
    }
}

/// Where the `m`-th child of a shell ends: where the next starts, or the
/// end of the section.
pub open spec fn child_end(h3s: Seq<MarkerV>, e: int, m: int) -> int {
    if m < h3s.len() { h3s[m].0 } else { e }
}

proof fn lemma_shell_prefix(ls: Seq<Seq<char>>, h3s: Seq<MarkerV>, s: int, e: int, pre: Seq<char>, bodies: Seq<Seq<char>>, m: int)
    requires
        0 <= m <= h3s.len(),
        h3s.len() >= 1,
        bodies.len() == h3s.len(),
        sorted_in(h3s, s + 1, e),
        0 <= s,
        e <= ls.len(),
        pre == join_slice(ls, s, h3s[0].0),
        forall|j: int| 0 <= j < h3s.len() ==> #[trigger] bodies[j] == join_slice(ls, h3s[j].0, child_end(h3s, e, j + 1)),
    ensures
        join(seq![pre] + bodies.take(m), seq!['\n']) == join_slice(ls, s, child_end(h3s, e, m)),
    decreases m,
{
    if m == 0 {
        assert(seq![pre] + bodies.take(0) =~= seq![pre]);
    } else {
        lemma_shell_prefix(ls, h3s, s, e, pre, bodies, m - 1);
        assert((seq![pre] + bodies.take(m - 1)).push(bodies[m - 1]) =~= seq![pre] + bodies.take(m));
        lemma_join_push(seq![pre] + bodies.take(m - 1), bodies[m - 1], seq!['\n']);
        assert(s < child_end(h3s, e, m - 1) < child_end(h3s, e, m) <= ls.len()) by {
            assert(s < h3s[m - 1].0);
            if m < h3s.len() {
                assert(h3s[m - 1].0 < h3s[m].0);
            }
        }
        lemma_join_slice_split(ls, s, child_end(h3s, e, m - 1), child_end(h3s, e, m));
    }
}

/// A shell's text is the run of lines of its section.
proof fn lemma_shell_flat(ls: Seq<Seq<char>>, ms: Seq<MarkerV>, h2s: Seq<MarkerV>, k: int, slug: Seq<char>)
    requires
        0 <= k < h2s.len(),
        sorted_in(ms, 0, ls.len() as int),
        sorted_in(h2s, 0, ls.len() as int),
        is_shell(ls, ms, h2s, k),
    ensures
        flat(fragment_at(ls, ms, h2s, k, slug)) == join_slice(ls, h2s[k].0, h2_end(ls, h2s, k)),
{
    let s = h2s[k].0;
    let e = h2_end(ls, h2s, k);
    let h3s = h3_between(ms, s, e);
    lemma_h3_between_sorted(ms, s, e, 0, ls.len() as int);
    let n = h3s.len();
    let f = fragment_at(ls, ms, h2s, k, slug);
    assert(e <= ls.len()) by {
        if k + 1 < h2s.len() {
            assert(h2s[k + 1].0 < ls.len());
        }
    }
    match f {
        FragmentModel::Shell { preface, children, .. } => {
            let bodies = children.map_values(|c: (Seq<char>, Seq<char>, Seq<char>)| c.2);
            assert forall|j: int| 0 <= j < n implies #[trigger] bodies[j] == join_slice(ls, h3s[j].0, child_end(h3s, e, j + 1)) by {
                assert(bodies[j] == children[j].2);
                assert(children[j].2 == child_raw(ls, ms, h2s, k, j).1);
            }
            lemma_shell_prefix(ls, h3s, s, e, preface, bodies, n as int);
            assert(bodies.take(n as int) =~= bodies);
        },
        FragmentModel::H2 { .. } => {},
    }
}

proof fn lemma_parts_prefix(ls: Seq<Seq<char>>, h2s: Seq<MarkerV>, pre: Seq<Seq<char>>, flats: Seq<Seq<char>>, k: int)
    requires
        1 <= k <= h2s.len(),
        flats.len() == h2s.len(),
        sorted_in(h2s, 0, ls.len() as int),
        pre == (if h2s[0].0 == 0 { Seq::<Seq<char>>::empty() } else { seq![join_slice(ls, 0, h2s[0].0)] }),
        forall|j: int| 0 <= j < h2s.len() ==> #[trigger] flats[j] == join_slice(ls, h2s[j].0, h2_end(ls, h2s, j)),
    ensures
        join(pre + flats.take(k), seq!['\n']) == join_slice(ls, 0, h2_end(ls, h2s, k - 1)),
    decreases k,
{
    let s = h2s[k - 1].0;
    let e = h2_end(ls, h2s, k - 1);
    assert(s < e <= ls.len()) by {
        if k < h2s.len() {
            assert(h2s[k - 1].0 < h2s[k].0);
        }
    }
    if k == 1 {
        if h2s[0].0 == 0 {
            assert(pre + flats.take(1) =~= seq![flats[0]]);
        } else {
            assert(pre + flats.take(1) =~= seq![join_slice(ls, 0, h2s[0].0)].push(flats[0]));
            lemma_join_push(seq![join_slice(ls, 0, h2s[0].0)], flats[0], seq!['\n']);
            lemma_join_slice_split(ls, 0, h2s[0].0, e);
        }
    } else {
        lemma_parts_prefix(ls, h2s, pre, flats, k - 1);
        assert((pre + flats.take(k - 1)).push(flats[k - 1]) =~= pre + flats.take(k));
        lemma_join_push(pre + flats.take(k - 1), flats[k - 1], seq!['\n']);
        assert(h2_end(ls, h2s, k - 2) == s);
        assert(0 <= h2s[0].0 <= h2s[k - 2].0 < s) by {
            if k - 2 > 0 {
                assert(h2s[0].0 < h2s[k - 2].0);
            }
        }
        lemma_join_slice_split(ls, 0, s, e);
    }
}

/// Law: a note's parts, joined with newlines, give back its body; a note
/// that is not split keeps its whole body as its entry text.
pub proof fn lemma_fragments_reassemble(body: Seq<char>, flag: Option<bool>)
    ensures
        tree_of(body, flag).2 ==> tree_of(body, flag).0 == body,
        !tree_of(body, flag).2 ==> join(note_parts(body, tree_of(body, flag)), seq!['\n']) == body,
{
    let t = tree_of(body, flag);
    if !t.2 {
        let ls = body_lines(body);
        let ms = markers_of(body);
        let h2s = with_level(ms, 2);
        let n = h2s.len();
        lemma_whole(body);
        lemma_markers_sorted(ls, 0, false);
        lemma_with_level_sorted(ms, 2, 0, ls.len() as int);
        let flats = t.1.map_values(|f: FragmentModel| flat(f));
        let slugs = assign(Seq::new(n, |j: int| slug_for_heading(h2s[j].2)), Set::empty());
        assert forall|j: int| 0 <= j < n implies #[trigger] flats[j] == join_slice(ls, h2s[j].0, h2_end(ls, h2s, j)) by {
            assert(t.1[j] == fragment_at(ls, ms, h2s, j, slugs[j]));
            if is_shell(ls, ms, h2s, j) {
                lemma_shell_flat(ls, ms, h2s, j, slugs[j]);
            }
        }
        let pre: Seq<Seq<char>> = if h2s[0].0 == 0 { Seq::<Seq<char>>::empty() } else { seq![t.0] };
        lemma_parts_prefix(ls, h2s, pre, flats, n as int);
        assert(flats.take(n as int) =~= flats);
        assert(note_parts(body, t) =~= pre + flats);
    }
}

// ---------------------------------------------------------------------------
// Executable code
// ---------------------------------------------------------------------------

struct Marker {
    line_idx: usize,
    level: u8,
    text: Vec<char>,
}

spec fn marker_view(m: Marker) -> MarkerV {
    (m.line_idx as int, m.level, m.text@)
}

spec fn markers_view(ms: Seq<Marker>) -> Seq<MarkerV> {
    ms.map_values(|m: Marker| marker_view(m))
}

fn scan_markers(lines: &Vec<Vec<char>>) -> (out: Vec<Marker>)
    ensures
        markers_view(out@) == markers_from(vv(lines), 0, false),
        forall|i: int| 0 <= i < out@.len() ==> #[trigger] out@[i].line_idx < lines@.len(),
{
    let mut out: Vec<Marker> = Vec::new();
    let mut in_fence = false;
    let mut i: usize = 0;
    assert(vv(lines).skip(0) =~= vv(lines));
    assert(markers_view(out@) =~= Seq::<MarkerV>::empty());
    while i < lines.len()
        invariant
            i <= lines@.len(),
            markers_view(out@) + markers_from(vv(lines).skip(i as int), i as int, in_fence)
                == markers_from(vv(lines), 0, false),
            forall|j: int| 0 <= j < out@.len() ==> #[trigger] out@[j].line_idx < lines@.len(),
        decreases lines@.len() - i,
    {
        let line = &lines[i];
        let ghost rest = vv(lines).skip(i as int);
        assert(rest[0] == line@);
        assert(rest.drop_first() =~= vv(lines).skip(i + 1));
        assert(line@.subrange(0, line@.len() as int) =~= line@);
        if is_fence_chars(line, 0, line.len()) {
            in_fence = !in_fence;
        } else if !in_fence {
            match parse_atx_chars(line, 0, line.len()) {
                Some((level, text)) => {
                    if 2 <= level && level <= 3 {
                        let ghost before = markers_view(out@);
                        out.push(Marker { line_idx: i, level, text });
                        assert(markers_view(out@) =~= before + seq![(i as int, level, text@)]);
                    }
                },
                None => {},
            }
        }
        i = i + 1;
    }
    assert(vv(lines).skip(i as int) =~= Seq::<Seq<char>>::empty());
    assert(markers_view(out@) + Seq::<MarkerV>::empty() =~= markers_view(out@));
    out
}

/// Indices (into `ms`) of the markers of level 2.
fn h2_indices(ms: &Vec<Marker>) -> (r: Vec<usize>)
    ensures
        r@.len() == with_level(markers_view(ms@), 2).len(),
        forall|k: int| 0 <= k < r@.len() ==> #[trigger] r@[k] < ms@.len() && marker_view(ms@[r@[k] as int]) == with_level(markers_view(ms@), 2)[k],
{
    let mut r: Vec<usize> = Vec::new();
    let mut i: usize = 0;
    let ghost all = markers_view(ms@);
    assert(all.skip(0) =~= all);
    while i < ms.len()
        invariant
            i <= ms@.len(),
            all == markers_view(ms@),
            forall|k: int| 0 <= k < r@.len() ==> #[trigger] r@[k] < ms@.len() && marker_view(ms@[r@[k] as int]) == with_level(all, 2)[k],
            forall|k: int| 0 <= k < r@.len() ==> #[trigger] r@[k] < i,
            with_level(all, 2) == Seq::new(r@.len(), |k: int| marker_view(ms@[r@[k] as int])) + with_level(all.skip(i as int), 2),
        decreases ms@.len() - i,
    {
        let ghost rest = all.skip(i as int);
        assert(rest.drop_first() =~= all.skip(i + 1));
        assert(rest[0] == marker_view(ms@[i as int]));
        let ghost old_r = r@;
        if ms[i].level == 2 {
            r.push(i);
            assert(Seq::new(r@.len(), |k: int| marker_view(ms@[r@[k] as int])) =~= Seq::new(old_r.len(), |k: int| marker_view(ms@[old_r[k] as int])) + seq![marker_view(ms@[i as int])]);
        }
        i = i + 1;
    }
    assert(all.skip(i as int) =~= Seq::<MarkerV>::empty());
    assert(with_level(all, 2) =~= Seq::new(r@.len(), |k: int| marker_view(ms@[r@[k] as int])));
    r
}

/// Indices (into `ms`) of the h3 markers strictly between lines `s` and `e`.
fn h3_indices(ms: &Vec<Marker>, s: usize, e: usize) -> (r: Vec<usize>)
    ensures
        r@.len() == h3_between(markers_view(ms@), s as int, e as int).len(),
        forall|k: int| 0 <= k < r@.len() ==> #[trigger] r@[k] < ms@.len() && marker_view(ms@[r@[k] as int]) == h3_between(markers_view(ms@), s as int, e as int)[k],
{
    let mut r: Vec<usize> = Vec::new();
    let mut i: usize = 0;
    let ghost all = markers_view(ms@);
    assert(all.skip(0) =~= all);
    while i < ms.len()
        invariant
            i <= ms@.len(),
            all == markers_view(ms@),
            forall|k: int| 0 <= k < r@.len() ==> #[trigger] r@[k] < ms@.len(),
            h3_between(all, s as int, e as int) == Seq::new(r@.len(), |k: int| marker_view(ms@[r@[k] as int])) + h3_between(all.skip(i as int), s as int, e as int),
        decreases ms@.len() - i,
    {
        let ghost rest = all.skip(i as int);
        assert(rest.drop_first() =~= all.skip(i + 1));
        assert(rest[0] == marker_view(ms@[i as int]));
        let ghost old_r = r@;
        if ms[i].level == 3 && s < ms[i].line_idx && ms[i].line_idx < e {
            r.push(i);
            assert(Seq::new(r@.len(), |k: int| marker_view(ms@[r@[k] as int])) =~= Seq::new(old_r.len(), |k: int| marker_view(ms@[old_r[k] as int])) + seq![marker_view(ms@[i as int])]);
        }
        i = i + 1;
    }
    assert(all.skip(i as int) =~= Seq::<MarkerV>::empty());
    assert(h3_between(all, s as int, e as int) =~= Seq::new(r@.len(), |k: int| marker_view(ms@[r@[k] as int])));
    r
}

fn join_slice_exec(lines: &Vec<Vec<char>>, s: usize, e: usize) -> (r: Vec<char>)
    requires
        e <= lines@.len(),
    ensures
        r@ == join_slice(vv(lines), s as int, e as int),
{
    if s >= e {
        Vec::new()
    } else {
        let sep = ['\n'];
        assert(sep@ =~= seq!['\n']);
        join_range(lines, s, e, &sep)
    }
}

/// The slug base of a heading: its slug, or `"section"` when that is empty.
pub fn slug_for_heading_exec(h: &[char]) -> (r: Vec<char>)
    ensures
        r@ == slug_for_heading(h@),
{
    let s = slugify(from_chars(h).as_str());
    let v = to_chars(s.as_str());
    if v.len() == 0 {
        let r = vec!['s', 'e', 'c', 't', 'i', 'o', 'n'];
        assert(r@ =~= seq!['s', 'e', 'c', 't', 'i', 'o', 'n']);
        r
    } else {
        v
    }
}

/// `base` when unused, else `base-N` with the least free `N`; the result is
/// recorded as used.
pub fn dedup_slug(base: &[char], used: &mut Vec<Vec<char>>) -> (r: Vec<char>)
    requires
        old(used)@.len() < usize::MAX,
    ensures
        r@ == dedup(base@, vv(old(used)).to_set()),
        vv(final(used)) == vv(old(used)).push(r@),
{
    let ghost s = vv(used).to_set();
    if !crate::num::contains_chars(used, base) {
        let r = vstd::slice::slice_to_vec(base);
        let ghost before = vv(used);
        used.push(vstd::slice::slice_to_vec(base));
        assert(vv(used) =~= before.push(r@));
        return r;
    }
    let mut prefix = vstd::slice::slice_to_vec(base);
    prefix.push('-');
    let empty: Vec<char> = Vec::new();
    assert(empty@ =~= Seq::<char>::empty());
    assert(prefix@ =~= base@ + seq!['-']);
    assert(vv(used).to_set().contains(base@));
    let (_, cand) = first_free_name(&prefix, &empty, used);
    let ghost before = vv(used);
    used.push(vstd::slice::slice_to_vec(&cand));
    assert(vv(used) =~= before.push(cand@));
    cand
}

/// The `k`-th fragment, given its slug.
#[verifier::rlimit(50)]
fn make_fragment(lines: &Vec<Vec<char>>, ms: &Vec<Marker>, h2: &Vec<usize>, k: usize, slug: &Vec<char>) -> (frag: Fragment)
    requires
        k < h2@.len(),
        h2@.len() == with_level(markers_view(ms@), 2).len(),
        forall|i: int| 0 <= i < h2@.len() ==> #[trigger] h2@[i] < ms@.len() && marker_view(ms@[h2@[i] as int]) == with_level(markers_view(ms@), 2)[i],
        forall|i: int| 0 <= i < ms@.len() ==> #[trigger] ms@[i].line_idx < lines@.len(),
    ensures
        frag@ == fragment_at(vv(lines), markers_view(ms@), with_level(markers_view(ms@), 2), k as int, slug@),
{
    let ghost ls = vv(lines);
    let ghost msv = markers_view(ms@);
    let ghost h2s = with_level(msv, 2);
    let m = &ms[h2[k]];
    assert(marker_view(ms@[h2@[k as int] as int]) == h2s[k as int]);
    let start = m.line_idx;
    let end = if k < h2.len() - 1 {
        ms[h2[k + 1]].line_idx
    } else {
        lines.len()
    };
    assert(end as int == h2_end(ls, h2s, k as int));
    assert(start < lines@.len());
    let h3 = h3_indices(ms, start, end);
    let ghost h3s = h3_between(msv, start as int, end as int);
    let count = if end > start && end - start > 1 { end - start - 1 } else { 0 };
    if count > H3_RESPLIT_THRESHOLD && h3.len() >= 2 {
        assert(is_shell(ls, msv, h2s, k as int));
        let first_h3 = ms[h3[0]].line_idx;
        assert(marker_view(ms@[h3@[0] as int]) == h3s[0]);
        let shell_preface = join_slice_exec(lines, start, first_h3);
        let children = make_children(lines, ms, h2, k, start, end, &h3);
        Fragment::Shell {
            heading: from_chars(&m.text),
            slug: from_chars(slug),
            preface: from_chars(&shell_preface),
            children,
        }
    } else {
        assert(!is_shell(ls, msv, h2s, k as int));
        let fbody = join_slice_exec(lines, start, end);
        Fragment::H2 {
            heading: from_chars(&m.text),
            slug: from_chars(slug),
            body: from_chars(&fbody),
        }
    }
}

/// The h3 children of the `k`-th h2 section (lines `start..end`).
#[verifier::rlimit(50)]
fn make_children(lines: &Vec<Vec<char>>, ms: &Vec<Marker>, h2: &Vec<usize>, k: usize, start: usize, end: usize, h3: &Vec<usize>) -> (children: Vec<H3Fragment>)
    requires
        k < h2@.len(),
        h2@.len() == with_level(markers_view(ms@), 2).len(),
        start as int == with_level(markers_view(ms@), 2)[k as int].0,
        end as int == h2_end(vv(lines), with_level(markers_view(ms@), 2), k as int),
        end <= lines@.len(),
        h3@.len() == h3_between(markers_view(ms@), start as int, end as int).len(),
        forall|i: int| 0 <= i < h3@.len() ==> #[trigger] h3@[i] < ms@.len() && marker_view(ms@[h3@[i] as int]) == h3_between(markers_view(ms@), start as int, end as int)[i],
        forall|i: int| 0 <= i < ms@.len() ==> #[trigger] ms@[i].line_idx < lines@.len(),
    ensures
        ({
            let ls = vv(lines);
            let msv = markers_view(ms@);
            let h2s = with_level(msv, 2);
            let h3s = h3_between(msv, start as int, end as int);
            let cslugs = assign(Seq::new(h3s.len(), |i: int| slug_for_heading(h3s[i].2)), Set::empty());
            children_view(children@) == Seq::new(h3s.len(), |i: int| (child_raw(ls, msv, h2s, k as int, i).0, cslugs[i], child_raw(ls, msv, h2s, k as int, i).1))
        }),
{
    let ghost ls = vv(lines);
    let ghost msv = markers_view(ms@);
    let ghost h2s = with_level(msv, 2);
    let ghost h3s = h3_between(msv, start as int, end as int);
    let mut children: Vec<H3Fragment> = Vec::new();
    let mut child_used: Vec<Vec<char>> = Vec::new();
    let ghost cbases = Seq::new(h3s.len(), |j: int| slug_for_heading(h3s[j].2));
    let ghost cslugs = assign(cbases, Set::empty());
    assert(vv(&child_used) =~= Seq::<Seq<char>>::empty());
    assert(vv(&child_used).to_set() =~= Set::<Seq<char>>::empty());
    assert(cbases.skip(0) =~= cbases);
    assert(children_view(children@) =~= Seq::new(0 as nat, |i: int| (child_raw(ls, msv, h2s, k as int, i).0, cslugs[i], child_raw(ls, msv, h2s, k as int, i).1)));
    let mut j: usize = 0;
    while j < h3.len()
        invariant
            j <= h3@.len(),
            h3@.len() == h3s.len(),
            k < h2@.len(),
            h3s == h3_between(msv, start as int, end as int),
            h2s == with_level(msv, 2),
            start as int == h2s[k as int].0,
            end as int == h2_end(ls, h2s, k as int),
            end <= lines@.len(),
            vv(lines) == ls,
            markers_view(ms@) == msv,
            forall|i: int| 0 <= i < h3@.len() ==> #[trigger] h3@[i] < ms@.len() && marker_view(ms@[h3@[i] as int]) == h3s[i],
            forall|i: int| 0 <= i < ms@.len() ==> #[trigger] ms@[i].line_idx < lines@.len(),
            cbases == Seq::new(h3s.len(), |i: int| slug_for_heading(h3s[i].2)),
            cslugs == assign(cbases, Set::empty()),
            vv(&child_used).len() == j,
            Seq::new(j as nat, |i: int| cslugs[i]) + assign(cbases.skip(j as int), vv(&child_used).to_set()) == cslugs,
            children_view(children@) == Seq::new(j as nat, |i: int| (child_raw(ls, msv, h2s, k as int, i).0, cslugs[i], child_raw(ls, msv, h2s, k as int, i).1)),
        decreases h3@.len() - j,
    {
        let c = &ms[h3[j]];
        assert(marker_view(ms@[h3@[j as int] as int]) == h3s[j as int]);
        let cstart = c.line_idx;
        let cend = if j + 1 < h3.len() {
            assert(marker_view(ms@[h3@[j + 1] as int]) == h3s[j + 1]);
            ms[h3[j + 1]].line_idx
        } else {
            end
        };
        let cbody = join_slice_exec(lines, cstart, cend);
        assert(cbody@ == child_raw(ls, msv, h2s, k as int, j as int).1);
        assert(c.text@ == child_raw(ls, msv, h2s, k as int, j as int).0);
        let cbase = slug_for_heading_exec(&c.text);
        let ghost cused_set = vv(&child_used).to_set();
        let cslug = dedup_slug(&cbase, &mut child_used);
        proof {
            let rest = cbases.skip(j as int);
            assert(rest[0] == cbases[j as int]);
            assert(rest.drop_first() =~= cbases.skip(j + 1));
            vv(&child_used).drop_last().lemma_push_to_set_commute(cslug@);
            assert(vv(&child_used).drop_last() =~= vv(&child_used).subrange(0, j as int));
            assert(cslugs[j as int] == cslug@) by {
                assert(assign(rest, cused_set)[0] == cslug@);
                assert(cslugs[j as int] == (Seq::new(j as nat, |i: int| cslugs[i]) + assign(rest, cused_set))[j as int]);
            }
            assert(Seq::new((j + 1) as nat, |i: int| cslugs[i]) + assign(cbases.skip(j + 1), vv(&child_used).to_set()) =~= cslugs) by {
                assert(vv(&child_used).to_set() =~= cused_set.insert(cslug@));
                assert(assign(rest, cused_set) =~= seq![cslug@] + assign(cbases.skip(j + 1), vv(&child_used).to_set()));
            }
        }
        let h = H3Fragment {
            heading: from_chars(&c.text),
            slug: from_chars(&cslug),
            body: from_chars(&cbody),
        };
        let ghost before = children_view(children@);
        assert(h@ == (child_raw(ls, msv, h2s, k as int, j as int).0, cslugs[j as int], child_raw(ls, msv, h2s, k as int, j as int).1));
        children.push(h);
        assert(children_view(children@) =~= before.push(h@));
        assert(children_view(children@) =~= Seq::new((j + 1) as nat, |i: int| (child_raw(ls, msv, h2s, k as int, i).0, cslugs[i], child_raw(ls, msv, h2s, k as int, i).1)));
        j = j + 1;
    }
    children
}

/// Split the body of one note into fragments.
pub fn build_fragments(note: &NoteData) -> (t: FragmentTree)
    ensures
        t@ == tree_of(note.body@, note.frontmatter.fragment),
{
    build_fragments_of(note.body.as_str(), note.frontmatter.fragment)
}

/// Fragment a body; `fragment_flag` is the note's `fragment` setting.
pub fn build_fragments_of(body: &str, fragment_flag: Option<bool>) -> (t: FragmentTree)
    ensures
        t@ == tree_of(body@, fragment_flag),
{
    let v = to_chars(body);
    let lines = split_chars(&v, '\n');
    let ms = scan_markers(&lines);
    let h2 = h2_indices(&ms);
    let ghost ls = vv(&lines);
    let ghost msv = markers_view(ms@);
    let ghost h2s = with_level(msv, 2);
    if matches!(fragment_flag, Some(false)) || h2.len() == 0 {
        return FragmentTree {
            preface: String::from_str(body),
            fragments: Vec::new(),
            non_fragmented: true,
        };
    }
    let first = ms[h2[0]].line_idx;
    let preface = join_slice_exec(&lines, 0, first);
    let mut frags: Vec<Fragment> = Vec::new();
    let mut used: Vec<Vec<char>> = Vec::new();
    let ghost bases = Seq::new(h2s.len(), |k: int| slug_for_heading(h2s[k].2));
    let ghost slugs = assign(bases, Set::empty());
    assert(vv(&used) =~= Seq::<Seq<char>>::empty());
    assert(vv(&used).to_set() =~= Set::<Seq<char>>::empty());
    assert(bases.skip(0) =~= bases);
    let mut k: usize = 0;
    while k < h2.len()
        invariant
            k <= h2@.len(),
            h2@.len() == h2s.len(),
            vv(&lines) == ls,
            markers_view(ms@) == msv,
            h2s == with_level(msv, 2),
            ls == body_lines(body@),
            msv == markers_of(body@),
            forall|i: int| 0 <= i < h2@.len() ==> #[trigger] h2@[i] < ms@.len() && marker_view(ms@[h2@[i] as int]) == h2s[i],
            forall|i: int| 0 <= i < ms@.len() ==> #[trigger] ms@[i].line_idx < lines@.len(),
            bases == Seq::new(h2s.len(), |j: int| slug_for_heading(h2s[j].2)),
            slugs == assign(bases, Set::empty()),
            vv(&used).len() == k,
            Seq::new(k as nat, |j: int| slugs[j]) + assign(bases.skip(k as int), vv(&used).to_set()) == slugs,
            fragments_view(frags@) == Seq::new(k as nat, |j: int| fragment_at(ls, msv, h2s, j, slugs[j])),
        decreases h2@.len() - k,
    {
        let m = &ms[h2[k]];
        assert(marker_view(ms@[h2@[k as int] as int]) == h2s[k as int]);
        let base = slug_for_heading_exec(&m.text);
        let ghost used_set = vv(&used).to_set();
        let slug = dedup_slug(&base, &mut used);
        proof {
            let rest = bases.skip(k as int);
            assert(rest[0] == bases[k as int]);
            assert(rest.drop_first() =~= bases.skip(k + 1));
            vv(&used).drop_last().lemma_push_to_set_commute(slug@);
            assert(vv(&used).drop_last() =~= vv(&used).subrange(0, k as int));
            assert(slugs[k as int] == slug@) by {
                assert(Seq::new(k as nat, |j: int| slugs[j]) + assign(rest, used_set) == slugs);
                assert(assign(rest, used_set)[0] == slug@);
                assert(slugs[k as int] == (Seq::new(k as nat, |j: int| slugs[j]) + assign(rest, used_set))[k as int]);
            }
            assert(Seq::new((k + 1) as nat, |j: int| slugs[j]) + assign(bases.skip(k + 1), vv(&used).to_set()) =~= slugs) by {
                assert(vv(&used).to_set() =~= used_set.insert(slug@));
                assert(assign(rest, used_set) =~= seq![slug@] + assign(bases.skip(k + 1), vv(&used).to_set()));
            }
        }
        let frag = make_fragment(&lines, &ms, &h2, k, &slug);
        assert(frag@ == fragment_at(ls, msv, h2s, k as int, slugs[k as int]));
        let ghost before = fragments_view(frags@);
        frags.push(frag);
        assert(fragments_view(frags@) =~= before.push(frag@));
        assert(fragments_view(frags@) =~= Seq::new((k + 1) as nat, |j: int| fragment_at(ls, msv, h2s, j, slugs[j])));
        k = k + 1;
    }
    FragmentTree { preface: from_chars(&preface), fragments: frags, non_fragmented: false }
}

} // verus!
