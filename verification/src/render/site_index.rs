//! The `_index.md` page of `fragments/` and of each directory under it that
//! leads to a note: counts of the notes and fragment pages below, the
//! subdirectories, and the notes directly inside.
//!
//! Directories are compared, ordered and printed by their components.
use vstd::prelude::*;
use crate::model::{iter_pages, pages_of, Node, Page, PageKind, PageV, pages_view};
use crate::num::{decimal, decimal_chars};
use crate::order::{comps_lt, comps_lt_exec, key_eq, lemma_comps_lt_irrefl, lemma_comps_lt_total, lemma_comps_lt_trans, sort_unique, strictly_sorted, Keyed};
use crate::paths::{components, components_exec, join2, path_of};
use crate::strs::{chars_eq, from_chars, join_chars, push_all, slice_copy, to_chars, vv};

verus! {

broadcast use vstd::seq_lib::group_seq_properties;

/// One `_index.md` page.
pub struct SiteIndexPage {
    pub output_path: String,
    pub body: String,
}

/// A directory as its components.
pub type Comps = Seq<Seq<char>>;

/// `fragments`, the root of the note pages.
pub open spec fn root_comps() -> Comps {
    seq!["fragments"@]
}

/// The entry directory of a node.
pub open spec fn dir_comps(n: Node) -> Comps {
    components(n.entry_dir@)
}

/// `s` is a directory above `c` (a proper, non-empty prefix of it).
pub open spec fn is_ancestor(s: Comps, c: Comps) -> bool {
    1 <= s.len() && s.len() < c.len() && c.take(s.len() as int) == s
}

/// The directories that get an index: `fragments` and every directory
/// above an entry directory.
pub open spec fn is_section(nodes: Seq<Node>, s: Comps) -> bool {
    s == root_comps() || exists|i: int| 0 <= i < nodes.len() && is_ancestor(s, dir_comps(#[trigger] nodes[i]))
}

pub open spec fn is_entry_dir(nodes: Seq<Node>, d: Comps) -> bool {
    exists|i: int| 0 <= i < nodes.len() && dir_comps(#[trigger] nodes[i]) == d
}

/// Strictly increasing by components.
pub open spec fn comps_strict(s: Seq<Comps>) -> bool {
    forall|i: int, j: int| 0 <= i < j < s.len() ==> comps_lt(#[trigger] s[i], #[trigger] s[j])
}

/// The number of fragment pages (h2 and h3 leaves) among pages.
pub open spec fn leaf_pages(ps: Seq<PageV>) -> nat
    decreases ps.len(),
{
    if ps.len() == 0 {
        0
    } else {
        leaf_pages(ps.drop_last()) + if ps.last().3 == PageKind::H2Leaf || ps.last().3 == PageKind::H3Leaf { 1nat } else { 0nat }
    }
}

pub open spec fn node_leaves(n: Node) -> nat {
    leaf_pages(pages_of(n))
}

/// The notes at or below `s`.
pub open spec fn note_count(nodes: Seq<Node>, s: Comps) -> nat
    decreases nodes.len(),
{
    if nodes.len() == 0 {
        0
    } else {
        note_count(nodes.drop_last(), s) + if is_ancestor(s, dir_comps(nodes.last())) { 1nat } else { 0nat }
    }
}

/// The fragment pages of the notes at or below `s`.
pub open spec fn leaf_total(nodes: Seq<Node>, s: Comps) -> nat
    decreases nodes.len(),
{
    if nodes.len() == 0 {
        0
    } else {
        leaf_total(nodes.drop_last(), s) + if is_ancestor(s, dir_comps(nodes.last())) { node_leaves(nodes.last()) } else { 0nat }
    }
}

/// The fragment pages of all notes.
pub open spec fn all_leaves(nodes: Seq<Node>) -> nat
    decreases nodes.len(),
{
    if nodes.len() == 0 {
        0
    } else {
        all_leaves(nodes.drop_last()) + node_leaves(nodes.last())
    }
}

proof fn lemma_leaf_total_bound(nodes: Seq<Node>, s: Comps)
    ensures
        leaf_total(nodes, s) <= all_leaves(nodes),
        note_count(nodes, s) <= nodes.len(),
    decreases nodes.len(),
{
    if nodes.len() > 0 {
        lemma_leaf_total_bound(nodes.drop_last(), s);
    }
}

pub proof fn lemma_all_leaves_prefix(nodes: Seq<Node>, i: int)
    requires
        0 <= i <= nodes.len(),
    ensures
        all_leaves(nodes.take(i)) <= all_leaves(nodes),
    decreases nodes.len(),
{
    if i < nodes.len() {
        assert(nodes.drop_last().take(i) =~= nodes.take(i));
        lemma_all_leaves_prefix(nodes.drop_last(), i);
    } else {
        assert(nodes.take(i) =~= nodes);
    }
}

// ---------------------------------------------------------------------------
// Sorted directory lists
// ---------------------------------------------------------------------------

/// A directory held as its components, ordered by them.
pub struct Dir {
    pub comps: Vec<Vec<char>>,
}

impl Keyed for Dir {
    open spec fn key_lt(&self, other: &Self) -> bool {
        comps_lt(vv(&self.comps), vv(&other.comps))
    }

    fn lt(&self, other: &Self) -> (r: bool) {
        comps_lt_exec(&self.comps, &other.comps)
    }

    proof fn lemma_asym(a: &Self, b: &Self) {
        if comps_lt(vv(&a.comps), vv(&b.comps)) && comps_lt(vv(&b.comps), vv(&a.comps)) {
            lemma_comps_lt_trans(vv(&a.comps), vv(&b.comps), vv(&a.comps));
            lemma_comps_lt_irrefl(vv(&a.comps));
        }
    }

    proof fn lemma_neg_trans(a: &Self, b: &Self, c: &Self) {
        let (x, y, z) = (vv(&a.comps), vv(&b.comps), vv(&c.comps));
        if comps_lt(z, x) {
            lemma_comps_lt_total(z, y);
            if comps_lt(y, z) {
                lemma_comps_lt_trans(y, z, x);
            }
        }
    }
}

pub open spec fn dirs_view(v: Seq<Dir>) -> Seq<Comps> {
    v.map_values(|d: Dir| vv(&d.comps))
}

/// Sort directories, each once.
fn sorted_dirs(v: Vec<Dir>) -> (r: Vec<Dir>)
    ensures
        comps_strict(dirs_view(r@)),
        forall|s: Comps| dirs_view(r@).contains(s) <==> dirs_view(v@).contains(s),
{
    let ghost orig = v@;
    let (r, Ghost(w)) = sort_unique(v);
    proof {
        assert forall|i: int, j: int| 0 <= i < j < dirs_view(r@).len() implies comps_lt(#[trigger] dirs_view(r@)[i], #[trigger] dirs_view(r@)[j]) by {
            assert(r@[i].key_lt(&r@[j]));
        }
        assert forall|s: Comps| dirs_view(r@).contains(s) implies dirs_view(orig).contains(s) by {
            let i = choose|i: int| 0 <= i < dirs_view(r@).len() && dirs_view(r@)[i] == s;
            assert(orig.contains(r@[i]));
            let k = choose|k: int| 0 <= k < orig.len() && orig[k] == r@[i];
            assert(dirs_view(orig)[k] == s);
        }
        assert forall|s: Comps| dirs_view(orig).contains(s) implies dirs_view(r@).contains(s) by {
            let k = choose|k: int| 0 <= k < dirs_view(orig).len() && dirs_view(orig)[k] == s;
            let m = w[k];
            assert(key_eq(r@[m], orig[k]));
            lemma_comps_lt_total(vv(&r@[m].comps), vv(&orig[k].comps));
            assert(dirs_view(r@)[m] == s);
        }
    }
    r
}

fn copy_comps(c: &Vec<Vec<char>>, k: usize) -> (r: Vec<Vec<char>>)
    requires
        k <= c@.len(),
    ensures
        vv(&r) == vv(c).take(k as int),
{
    let mut out: Vec<Vec<char>> = Vec::new();
    let mut i: usize = 0;
    while i < k
        invariant
            i <= k <= c@.len(),
            vv(&out) == vv(c).take(i as int),
        decreases k - i,
    {
        let ghost before = vv(&out);
        out.push(slice_copy(&c[i], 0, c[i].len()));
        assert(c@[i as int]@.subrange(0, c@[i as int]@.len() as int) =~= c@[i as int]@);
        assert(vv(&out) =~= before.push(vv(c)[i as int]));
        assert(vv(c).take(i + 1) =~= vv(c).take(i as int).push(vv(c)[i as int]));
        i = i + 1;
    }
    out
}

fn root_dir() -> (r: Dir)
    ensures
        vv(&r.comps) == root_comps(),
{
    let mut comps: Vec<Vec<char>> = Vec::new();
    comps.push(to_chars("fragments"));
    assert(vv(&comps) =~= root_comps());
    Dir { comps }
}

/// The components of each node's entry directory.
fn node_dirs(nodes: &[Node]) -> (r: Vec<Vec<Vec<char>>>)
    ensures
        r@.len() == nodes@.len(),
        forall|i: int| 0 <= i < nodes@.len() ==> vv(&r@[i]) == dir_comps(#[trigger] nodes@[i]),
{
    let mut out: Vec<Vec<Vec<char>>> = Vec::new();
    let mut i: usize = 0;
    while i < nodes.len()
        invariant
            i <= nodes@.len(),
            out@.len() == i,
            forall|j: int| 0 <= j < i ==> vv(&out@[j]) == dir_comps(#[trigger] nodes@[j]),
        decreases nodes@.len() - i,
    {
        out.push(components_exec(&to_chars(nodes[i].entry_dir.as_str())));
        i = i + 1;
    }
    out
}

/// The directories that get an index, sorted.
fn section_dirs(nodes: &[Node], nd: &Vec<Vec<Vec<char>>>) -> (r: Vec<Dir>)
    requires
        nd@.len() == nodes@.len(),
        forall|i: int| 0 <= i < nodes@.len() ==> vv(&nd@[i]) == dir_comps(#[trigger] nodes@[i]),
    ensures
        comps_strict(dirs_view(r@)),
        forall|s: Comps| dirs_view(r@).contains(s) <==> is_section(nodes@, s),
{
    let mut cands: Vec<Dir> = Vec::new();
    cands.push(root_dir());
    assert(dirs_view(cands@)[0] == root_comps());
    let mut i: usize = 0;
    while i < nd.len()
        invariant
            i <= nd@.len() == nodes@.len(),
            forall|j: int| 0 <= j < nodes@.len() ==> vv(&nd@[j]) == dir_comps(#[trigger] nodes@[j]),
            dirs_view(cands@).contains(root_comps()),
            forall|s: Comps| #[trigger] dirs_view(cands@).contains(s) ==> is_section(nodes@, s),
            forall|j: int, s: Comps| 0 <= j < i && #[trigger] is_ancestor(s, dir_comps(nodes@[j])) ==> dirs_view(cands@).contains(s),
        decreases nd@.len() - i,
    {
        let c = &nd[i];
        let mut k: usize = 1;
        while k < c.len()
            invariant
                1 <= k <= c@.len() || c@.len() == 0,
                i < nd@.len() == nodes@.len(),
                c == nd@[i as int],
                vv(c) == dir_comps(nodes@[i as int]),
                dirs_view(cands@).contains(root_comps()),
                forall|s: Comps| #[trigger] dirs_view(cands@).contains(s) ==> is_section(nodes@, s),
                forall|j: int, s: Comps| 0 <= j < i && #[trigger] is_ancestor(s, dir_comps(nodes@[j])) ==> dirs_view(cands@).contains(s),
                forall|s: Comps| is_ancestor(s, vv(c)) && s.len() < k ==> #[trigger] dirs_view(cands@).contains(s),
            decreases c@.len() - k,
        {
            let ghost before = dirs_view(cands@);
            let d = Dir { comps: copy_comps(c, k) };
            cands.push(d);
            proof {
                let p = vv(c).take(k as int);
                assert(dirs_view(cands@) =~= before.push(p));
                assert(is_ancestor(p, dir_comps(nodes@[i as int])));
                assert(is_section(nodes@, p));
                assert forall|s: Comps| #[trigger] dirs_view(cands@).contains(s) implies is_section(nodes@, s) by {
                    if s != p {
                        assert(before.contains(s));
                    }
                }
                assert forall|s: Comps| is_ancestor(s, vv(c)) && s.len() < k + 1 implies #[trigger] dirs_view(cands@).contains(s) by {
                    if s.len() == k {
                        assert(s =~= p);
                        assert(dirs_view(cands@)[before.len() as int] == p);
                    } else {
                        assert(before.contains(s));
                    }
                }
                assert(dirs_view(cands@).contains(root_comps())) by {
                    assert(before.contains(root_comps()));
                }
                assert forall|j: int, s: Comps| 0 <= j < i && #[trigger] is_ancestor(s, dir_comps(nodes@[j])) implies dirs_view(cands@).contains(s) by {
                    assert(before.contains(s));
                }
            }
            k = k + 1;
        }
        i = i + 1;
    }
    proof {
        assert forall|s: Comps| is_section(nodes@, s) implies #[trigger] dirs_view(cands@).contains(s) by {
            if s != root_comps() {
                let j = choose|j: int| 0 <= j < nodes@.len() && is_ancestor(s, dir_comps(#[trigger] nodes@[j]));
            }
        }
    }
    sorted_dirs(cands)
}

/// The entry directories, sorted, each once.
fn entry_dirs(nodes: &[Node], nd: &Vec<Vec<Vec<char>>>) -> (r: Vec<Dir>)
    requires
        nd@.len() == nodes@.len(),
        forall|i: int| 0 <= i < nodes@.len() ==> vv(&nd@[i]) == dir_comps(#[trigger] nodes@[i]),
    ensures
        comps_strict(dirs_view(r@)),
        forall|d: Comps| dirs_view(r@).contains(d) <==> is_entry_dir(nodes@, d),
{
    let mut cands: Vec<Dir> = Vec::new();
    let mut i: usize = 0;
    while i < nd.len()
        invariant
            i <= nd@.len() == nodes@.len(),
            forall|j: int| 0 <= j < nodes@.len() ==> vv(&nd@[j]) == dir_comps(#[trigger] nodes@[j]),
            dirs_view(cands@) == Seq::new(i as nat, |j: int| dir_comps(nodes@[j])),
        decreases nd@.len() - i,
    {
        let c = &nd[i];
        let ghost before = dirs_view(cands@);
        let d = Dir { comps: copy_comps(c, c.len()) };
        assert(vv(c).take(c@.len() as int) =~= vv(c));
        assert(vv(&d.comps) == dir_comps(nodes@[i as int]));
        cands.push(d);
        assert(dirs_view(cands@) =~= before.push(dir_comps(nodes@[i as int])));
        assert(dirs_view(cands@) =~= Seq::new((i + 1) as nat, |j: int| dir_comps(nodes@[j])));
        i = i + 1;
    }
    proof {
        assert forall|d: Comps| dirs_view(cands@).contains(d) <==> is_entry_dir(nodes@, d) by {
            if dirs_view(cands@).contains(d) {
                let j = choose|j: int| 0 <= j < dirs_view(cands@).len() && dirs_view(cands@)[j] == d;
                assert(dir_comps(nodes@[j]) == d);
            }
            if is_entry_dir(nodes@, d) {
                let j = choose|j: int| 0 <= j < nodes@.len() && dir_comps(#[trigger] nodes@[j]) == d;
                assert(dirs_view(cands@)[j] == d);
            }
        }
    }
    sorted_dirs(cands)
}

// ---------------------------------------------------------------------------
// Counts
// ---------------------------------------------------------------------------

fn comps_eq(a: &Vec<Vec<char>>, b: &Vec<Vec<char>>) -> (r: bool)
    ensures
        r == (vv(a) == vv(b)),
{
    assert(vv(a).len() == a@.len() && vv(b).len() == b@.len());
    if a.len() != b.len() {
        return false;
    }
    let mut k: usize = 0;
    while k < a.len()
        invariant
            k <= a@.len() == b@.len(),
            vv(a).len() == a@.len() && vv(b).len() == b@.len(),
            forall|m: int| 0 <= m < k ==> vv(a)[m] == vv(b)[m],
        decreases a@.len() - k,
    {
        if !chars_eq(&a[k], &b[k]) {
            assert(vv(a)[k as int] != vv(b)[k as int]);
            return false;
        }
        k = k + 1;
    }
    assert(vv(a) =~= vv(b));
    true
}

/// Is `s` a proper, non-empty prefix of `c`?
fn is_ancestor_exec(s: &Vec<Vec<char>>, c: &Vec<Vec<char>>) -> (r: bool)
    ensures
        r == is_ancestor(vv(s), vv(c)),
{
    if s.len() < 1 || s.len() >= c.len() {
        return false;
    }
    let mut k: usize = 0;
    while k < s.len()
        invariant
            1 <= s@.len() < c@.len(),
            k <= s@.len(),
            forall|m: int| 0 <= m < k ==> vv(s)[m] == vv(c)[m],
        decreases s@.len() - k,
    {
        if !chars_eq(&s[k], &c[k]) {
            assert(vv(c).take(s@.len() as int)[k as int] != vv(s)[k as int]);
            return false;
        }
        k = k + 1;
    }
    assert(vv(c).take(s@.len() as int) =~= vv(s));
    true
}

/// Is `d` directly inside `s`?
fn is_child_exec(s: &Vec<Vec<char>>, d: &Vec<Vec<char>>) -> (r: bool)
    ensures
        r == (vv(d).len() > 0 && vv(d).drop_last() == vv(s)),
{
    assert(vv(d).len() == d@.len() && vv(s).len() == s@.len());
    if d.len() == 0 || d.len() - 1 != s.len() {
        return false;
    }
    let mut k: usize = 0;
    while k < s.len()
        invariant
            d@.len() == s@.len() + 1,
            k <= s@.len(),
            forall|m: int| 0 <= m < k ==> vv(s)[m] == vv(d)[m],
        decreases s@.len() - k,
    {
        if !chars_eq(&s[k], &d[k]) {
            assert(vv(d).drop_last()[k as int] != vv(s)[k as int]);
            return false;
        }
        k = k + 1;
    }
    assert(vv(d).drop_last() =~= vv(s));
    true
}

/// The fragment pages of one node.
pub(crate) fn node_leaf_count(n: &Node) -> (r: usize)
    ensures
        r == node_leaves(*n),
{
    let pages = iter_pages(n);
    leaf_count_of(&pages)
}

fn leaf_count_of(pages: &Vec<Page>) -> (r: usize)
    ensures
        r == leaf_pages(pages_view(pages@)),
{
    let ghost pv = pages_view(pages@);
    let mut cnt: usize = 0;
    let mut k: usize = 0;
    while k < pages.len()
        invariant
            k <= pages@.len(),
            pv == pages_view(pages@),
            cnt == leaf_pages(pv.take(k as int)),
            cnt <= k,
        decreases pages@.len() - k,
    {
        assert(pv.take(k + 1).drop_last() =~= pv.take(k as int));
        assert(pv[k as int].3 == pages@[k as int].kind);
        let leaf = match pages[k].kind {
            PageKind::H2Leaf => true,
            PageKind::H3Leaf => true,
            _ => false,
        };
        if leaf {
            cnt = cnt + 1;
        }
        k = k + 1;
    }
    assert(pv.take(pages@.len() as int) =~= pv);
    cnt
}

/// The notes and fragment pages at or below `s`.
fn section_counts(nodes: &[Node], nd: &Vec<Vec<Vec<char>>>, leaves: &Vec<usize>, s: &Vec<Vec<char>>) -> (r: (usize, usize))
    requires
        nd@.len() == nodes@.len(),
        leaves@.len() == nodes@.len(),
        forall|i: int| 0 <= i < nodes@.len() ==> vv(&nd@[i]) == dir_comps(#[trigger] nodes@[i]),
        forall|i: int| 0 <= i < nodes@.len() ==> leaves@[i] == node_leaves(#[trigger] nodes@[i]),
        all_leaves(nodes@) <= usize::MAX,
    ensures
        r.0 == note_count(nodes@, vv(s)),
        r.1 == leaf_total(nodes@, vv(s)),
{
    let mut a: usize = 0;
    let mut b: usize = 0;
    let mut i: usize = 0;
    while i < nodes.len()
        invariant
            i <= nodes@.len() == nd@.len() == leaves@.len(),
            forall|j: int| 0 <= j < nodes@.len() ==> vv(&nd@[j]) == dir_comps(#[trigger] nodes@[j]),
            forall|j: int| 0 <= j < nodes@.len() ==> leaves@[j] == node_leaves(#[trigger] nodes@[j]),
            all_leaves(nodes@) <= usize::MAX,
            a == note_count(nodes@.take(i as int), vv(s)),
            b == leaf_total(nodes@.take(i as int), vv(s)),
        decreases nodes@.len() - i,
    {
        let ghost t = nodes@.take(i + 1);
        assert(t.drop_last() =~= nodes@.take(i as int));
        assert(t.last() == nodes@[i as int]);
        proof {
            lemma_leaf_total_bound(t, vv(s));
            lemma_all_leaves_prefix(nodes@, i + 1);
        }
        if is_ancestor_exec(s, &nd[i]) {
            a = a + 1;
            b = b + leaves[i];
        }
        i = i + 1;
    }
    assert(nodes@.take(nodes@.len() as int) =~= nodes@);
    (a, b)
}

// ---------------------------------------------------------------------------
// Pages
// ---------------------------------------------------------------------------

/// The sections directly inside `s`, in order.
pub open spec fn subsections(secs: Seq<Comps>, s: Comps) -> Seq<Comps>
    decreases secs.len(),
{
    if secs.len() == 0 {
        seq![]
    } else {
        let r = subsections(secs.drop_last(), s);
        let d = secs.last();
        if d != root_comps() && d.len() > 0 && d.drop_last() == s {
            r.push(d)
        } else {
            r
        }
    }
}

/// The entry directories directly inside `s`, in order.
pub open spec fn notes_in(eds: Seq<Comps>, s: Comps) -> Seq<Comps>
    decreases eds.len(),
{
    if eds.len() == 0 {
        seq![]
    } else {
        let r = notes_in(eds.drop_last(), s);
        let d = eds.last();
        if d.len() > 0 && d.drop_last() == s {
            r.push(d)
        } else {
            r
        }
    }
}

/// The title of the first node whose entry directory is `d`.
pub open spec fn title_for_dir(nodes: Seq<Node>, d: Comps) -> Option<Seq<char>>
    decreases nodes.len(),
{
    if nodes.len() == 0 {
        None
    } else if dir_comps(nodes[0]) == d {
        Some(nodes[0].title@)
    } else {
        title_for_dir(nodes.drop_first(), d)
    }
}

pub open spec fn sub_line(nodes: Seq<Node>, sub: Comps) -> Seq<char> {
    "- ["@ + sub.last() + "]("@ + sub.last() + "/_index.md) — "@ + decimal(note_count(nodes, sub)) + " ノート\n"@
}

pub open spec fn sub_lines(nodes: Seq<Node>, subs: Seq<Comps>) -> Seq<char>
    decreases subs.len(),
{
    if subs.len() == 0 {
        seq![]
    } else {
        sub_lines(nodes, subs.drop_last()) + sub_line(nodes, subs.last())
    }
}

pub open spec fn note_line(nodes: Seq<Node>, d: Comps) -> Seq<char> {
    let title = match title_for_dir(nodes, d) {
        Some(t) => t,
        None => d.last(),
    };
    "- ["@ + title + "]("@ + d.last() + "/index.md)\n"@
}

pub open spec fn note_lines(nodes: Seq<Node>, ds: Seq<Comps>) -> Seq<char>
    decreases ds.len(),
{
    if ds.len() == 0 {
        seq![]
    } else {
        note_lines(nodes, ds.drop_last()) + note_line(nodes, ds.last())
    }
}

/// The heading of a section's page.
pub open spec fn section_heading(s: Comps) -> Seq<char> {
    if s == root_comps() {
        "fragments"@
    } else {
        path_of(s)
    }
}

/// The heading and summary of a section's index.
pub open spec fn summary_text(s: Comps, notes: nat, leaves: nat, subs: nat) -> Seq<char> {
    "# "@ + section_heading(s) + "\n"@ + "\n"@ + "## Summary\n"@ + "\n"@
        + "- Notes: "@ + decimal(notes) + " (recursive)\n"@
        + "- Fragments: "@ + decimal(leaves) + " (recursive)\n"@
        + "- Subdirectories: "@ + decimal(subs) + "\n"@ + "\n"@
}

/// A titled list, or nothing when the list is empty.
pub open spec fn titled_block(title: Seq<char>, lines: Seq<char>, non_empty: bool) -> Seq<char> {
    if non_empty {
        title + "\n"@ + lines + "\n"@
    } else {
        ""@
    }
}

/// The text of the index of section `s`, among the sections `secs` and the
/// entry directories `eds`.
pub open spec fn site_page_text(nodes: Seq<Node>, secs: Seq<Comps>, eds: Seq<Comps>, s: Comps) -> Seq<char> {
    let subs = subsections(secs, s);
    let notes = notes_in(eds, s);
    summary_text(s, note_count(nodes, s), leaf_total(nodes, s), subs.len())
        + titled_block("## Subdirectories\n"@, sub_lines(nodes, subs), subs.len() > 0)
        + titled_block("## Notes\n"@, note_lines(nodes, notes), notes.len() > 0)
}

/// Where the index of section `s` goes.
pub open spec fn site_page_path(s: Comps) -> Seq<char> {
    join2(path_of(s), "_index.md"@)
}

fn push_lit(t: &mut Vec<char>, s: &str)
    ensures
        final(t)@ == old(t)@ + s@,
{
    push_all(t, &to_chars(s));
}

fn title_for_dir_exec(nodes: &[Node], nd: &Vec<Vec<Vec<char>>>, d: &Vec<Vec<char>>) -> (r: Option<String>)
    requires
        nd@.len() == nodes@.len(),
        forall|i: int| 0 <= i < nodes@.len() ==> vv(&nd@[i]) == dir_comps(#[trigger] nodes@[i]),
    ensures
        match r {
            Some(t) => title_for_dir(nodes@, vv(d)) == Some(t@),
            None => title_for_dir(nodes@, vv(d)) is None,
        },
{
    let mut i: usize = 0;
    assert(nodes@.skip(0) =~= nodes@);
    while i < nodes.len()
        invariant
            i <= nodes@.len() == nd@.len(),
            forall|j: int| 0 <= j < nodes@.len() ==> vv(&nd@[j]) == dir_comps(#[trigger] nodes@[j]),
            title_for_dir(nodes@, vv(d)) == title_for_dir(nodes@.skip(i as int), vv(d)),
        decreases nodes@.len() - i,
    {
        let ghost rest = nodes@.skip(i as int);
        assert(rest[0] == nodes@[i as int]);
        assert(rest.drop_first() =~= nodes@.skip(i + 1));
        if comps_eq(&nd[i], d) {
            return Some(nodes[i].title.clone());
        }
        i = i + 1;
    }
    assert(nodes@.skip(i as int) =~= Seq::<Node>::empty());
    None
}

fn is_root_exec(d: &Vec<Vec<char>>) -> (r: bool)
    ensures
        r == (vv(d) == root_comps()),
{
    assert(vv(d).len() == d@.len());
    if d.len() != 1 {
        return false;
    }
    let f = to_chars("fragments");
    let r = chars_eq(&d[0], &f);
    if r {
        assert(vv(d) =~= root_comps());
    } else {
        assert(vv(d)[0] != root_comps()[0]);
    }
    r
}

fn last_comp(d: &Vec<Vec<char>>) -> (r: Vec<char>)
    requires
        d@.len() > 0,
    ensures
        r@ == vv(d).last(),
{
    let l = &d[d.len() - 1];
    assert(l@.subrange(0, l@.len() as int) =~= l@);
    slice_copy(l, 0, l.len())
}

/// The lines of the subsections of section `j`, and how many there are.
fn sub_block(nodes: &[Node], secs: &Vec<Dir>, counts: &Vec<usize>, j: usize) -> (r: (Vec<char>, usize))
    requires
        j < secs@.len(),
        counts@.len() == secs@.len(),
        forall|k: int| 0 <= k < secs@.len() ==> counts@[k] == note_count(nodes@, #[trigger] dirs_view(secs@)[k]),
    ensures
        r.0@ == sub_lines(nodes@, subsections(dirs_view(secs@), dirs_view(secs@)[j as int])),
        r.1 == subsections(dirs_view(secs@), dirs_view(secs@)[j as int]).len(),
{
    let s = &secs[j].comps;
    let ghost sc = dirs_view(secs@)[j as int];
    let ghost all = dirs_view(secs@);
    assert(vv(s) == sc);
    let mut buf: Vec<char> = Vec::new();
    let mut n: usize = 0;
    let mut k: usize = 0;
    while k < secs.len()
        invariant
            k <= secs@.len() == counts@.len(),
            j < secs@.len(),
            all == dirs_view(secs@),
            sc == all[j as int],
            vv(s) == sc,
            forall|m: int| 0 <= m < secs@.len() ==> counts@[m] == note_count(nodes@, #[trigger] dirs_view(secs@)[m]),
            buf@ == sub_lines(nodes@, subsections(all.take(k as int), sc)),
            n == subsections(all.take(k as int), sc).len(),
            n <= k,
        decreases secs@.len() - k,
    {
        let d = &secs[k].comps;
        assert(all.take(k + 1).drop_last() =~= all.take(k as int));
        assert(all.take(k + 1).last() == vv(d));
        if !is_root_exec(d) && is_child_exec(s, d) {
            let ghost before = buf@;
            let name = last_comp(d);
            push_lit(&mut buf, "- [");
            push_all(&mut buf, &name);
            push_lit(&mut buf, "](");
            push_all(&mut buf, &name);
            push_lit(&mut buf, "/_index.md) — ");
            assert(counts@[k as int] == note_count(nodes@, all[k as int]));
            push_all(&mut buf, &decimal_chars(counts[k]));
            push_lit(&mut buf, " ノート\n");
            assert(buf@ =~= before + sub_line(nodes@, vv(d)));
            let ghost prev = subsections(all.take(k as int), sc);
            assert(subsections(all.take(k + 1), sc) == prev.push(vv(d)));
            assert(prev.push(vv(d)).drop_last() =~= prev);
            n = n + 1;
        }
        k = k + 1;
    }
    assert(all.take(secs@.len() as int) =~= all);
    (buf, n)
}

/// The lines of the notes directly inside section `j`, and how many there are.
fn note_block(nodes: &[Node], nd: &Vec<Vec<Vec<char>>>, secs: &Vec<Dir>, eds: &Vec<Dir>, j: usize) -> (r: (Vec<char>, usize))
    requires
        j < secs@.len(),
        nd@.len() == nodes@.len(),
        forall|i: int| 0 <= i < nodes@.len() ==> vv(&nd@[i]) == dir_comps(#[trigger] nodes@[i]),
    ensures
        r.0@ == note_lines(nodes@, notes_in(dirs_view(eds@), dirs_view(secs@)[j as int])),
        r.1 == notes_in(dirs_view(eds@), dirs_view(secs@)[j as int]).len(),
{
    let s = &secs[j].comps;
    let ghost sc = dirs_view(secs@)[j as int];
    let ghost all = dirs_view(eds@);
    assert(vv(s) == sc);
    let mut buf: Vec<char> = Vec::new();
    let mut n: usize = 0;
    let mut k: usize = 0;
    while k < eds.len()
        invariant
            k <= eds@.len(),
            all == dirs_view(eds@),
            vv(s) == sc,
            nd@.len() == nodes@.len(),
            forall|i: int| 0 <= i < nodes@.len() ==> vv(&nd@[i]) == dir_comps(#[trigger] nodes@[i]),
            buf@ == note_lines(nodes@, notes_in(all.take(k as int), sc)),
            n == notes_in(all.take(k as int), sc).len(),
            n <= k,
        decreases eds@.len() - k,
    {
        let d = &eds[k].comps;
        assert(all.take(k + 1).drop_last() =~= all.take(k as int));
        assert(all.take(k + 1).last() == vv(d));
        if is_child_exec(s, d) {
            let ghost before = buf@;
            let name = last_comp(d);
            let title = match title_for_dir_exec(nodes, nd, d) {
                Some(t) => to_chars(t.as_str()),
                None => name.clone(),
            };
            push_lit(&mut buf, "- [");
            push_all(&mut buf, &title);
            push_lit(&mut buf, "](");
            push_all(&mut buf, &name);
            push_lit(&mut buf, "/index.md)\n");
            assert(buf@ =~= before + note_line(nodes@, vv(d)));
            let ghost prev = notes_in(all.take(k as int), sc);
            assert(notes_in(all.take(k + 1), sc) == prev.push(vv(d)));
            assert(prev.push(vv(d)).drop_last() =~= prev);
            n = n + 1;
        }
        k = k + 1;
    }
    assert(all.take(eds@.len() as int) =~= all);
    (buf, n)
}

fn summary_exec(s: &Vec<Vec<char>>, notes: usize, leaves: usize, subs: usize) -> (r: Vec<char>)
    ensures
        r@ == summary_text(vv(s), notes as nat, leaves as nat, subs as nat),
{
    let mut t: Vec<char> = Vec::new();
    push_lit(&mut t, "# ");
    if is_root_exec(s) {
        push_lit(&mut t, "fragments");
    } else {
        let sep = ['/'];
        assert(sep@ =~= seq!['/']);
        push_all(&mut t, &join_chars(s, &sep));
    }
    push_lit(&mut t, "\n");
    push_lit(&mut t, "\n");
    push_lit(&mut t, "## Summary\n");
    push_lit(&mut t, "\n");
    push_lit(&mut t, "- Notes: ");
    push_all(&mut t, &decimal_chars(notes));
    push_lit(&mut t, " (recursive)\n");
    push_lit(&mut t, "- Fragments: ");
    push_all(&mut t, &decimal_chars(leaves));
    push_lit(&mut t, " (recursive)\n");
    push_lit(&mut t, "- Subdirectories: ");
    push_all(&mut t, &decimal_chars(subs));
    push_lit(&mut t, "\n");
    push_lit(&mut t, "\n");
    assert(t@ =~= summary_text(vv(s), notes as nat, leaves as nat, subs as nat));
    t
}

fn block_exec(title: &str, lines: &Vec<char>, non_empty: bool) -> (r: Vec<char>)
    ensures
        r@ == titled_block(title@, lines@, non_empty),
{
    let mut t: Vec<char> = Vec::new();
    if non_empty {
        push_lit(&mut t, title);
        push_lit(&mut t, "\n");
        push_all(&mut t, lines);
        push_lit(&mut t, "\n");
        assert(t@ =~= titled_block(title@, lines@, non_empty));
    } else {
        push_lit(&mut t, "");
        assert(t@ =~= titled_block(title@, lines@, non_empty));
    }
    t
}

/// The text of the index of section `j`.
fn section_page(nodes: &[Node], nd: &Vec<Vec<Vec<char>>>, secs: &Vec<Dir>, eds: &Vec<Dir>, counts: &Vec<usize>, totals: &Vec<usize>, j: usize) -> (r: Vec<char>)
    requires
        j < secs@.len(),
        counts@.len() == secs@.len(),
        totals@.len() == secs@.len(),
        forall|k: int| 0 <= k < secs@.len() ==> counts@[k] == note_count(nodes@, #[trigger] dirs_view(secs@)[k]),
        forall|k: int| 0 <= k < secs@.len() ==> totals@[k] == leaf_total(nodes@, #[trigger] dirs_view(secs@)[k]),
        nd@.len() == nodes@.len(),
        forall|i: int| 0 <= i < nodes@.len() ==> vv(&nd@[i]) == dir_comps(#[trigger] nodes@[i]),
    ensures
        r@ == site_page_text(nodes@, dirs_view(secs@), dirs_view(eds@), dirs_view(secs@)[j as int]),
{
    let s = &secs[j].comps;
    assert(vv(s) == dirs_view(secs@)[j as int]);
    let (subs, n_subs) = sub_block(nodes, secs, counts, j);
    let (notes, n_notes) = note_block(nodes, nd, secs, eds, j);
    let mut t = summary_exec(s, counts[j], totals[j], n_subs);
    push_all(&mut t, &block_exec("## Subdirectories\n", &subs, n_subs > 0));
    push_all(&mut t, &block_exec("## Notes\n", &notes, n_notes > 0));
    t
}

/// `pages` are the indexes of the sections `secs`, in order, given the
/// entry directories `eds`: each at its path with its text.
pub open spec fn site_indexes_are(nodes: Seq<Node>, secs: Seq<Comps>, eds: Seq<Comps>, pages: Seq<SiteIndexPage>) -> bool {
    &&& comps_strict(secs)
    &&& forall|s: Comps| secs.contains(s) <==> is_section(nodes, s)
    &&& comps_strict(eds)
    &&& forall|d: Comps| eds.contains(d) <==> is_entry_dir(nodes, d)
    &&& pages.len() == secs.len()
    &&& forall|i: int| 0 <= i < secs.len() ==> (#[trigger] pages[i]).output_path@ == site_page_path(secs[i])
        && pages[i].body@ == site_page_text(nodes, secs, eds, secs[i])
}

/// The `_index.md` pages: one for `fragments/` and one for each directory
/// above an entry directory, in path order. Each counts the notes and
/// fragment pages at or below it, lists its subdirectories with their note
/// counts, and the notes directly inside it by title.
pub fn render_site_indexes(nodes: &[Node]) -> (r: Vec<SiteIndexPage>)
    requires
        all_leaves(nodes@) <= usize::MAX,
    ensures
        exists|secs: Seq<Comps>, eds: Seq<Comps>| #[trigger] site_indexes_are(nodes@, secs, eds, r@),
{
    let nd = node_dirs(nodes);
    let secs = section_dirs(nodes, &nd);
    let eds = entry_dirs(nodes, &nd);
    let mut leaves: Vec<usize> = Vec::new();
    let mut i: usize = 0;
    while i < nodes.len()
        invariant
            i <= nodes@.len(),
            leaves@.len() == i,
            forall|j: int| 0 <= j < i ==> leaves@[j] == node_leaves(#[trigger] nodes@[j]),
        decreases nodes@.len() - i,
    {
        leaves.push(node_leaf_count(&nodes[i]));
        i = i + 1;
    }
    let mut counts: Vec<usize> = Vec::new();
    let mut totals: Vec<usize> = Vec::new();
    let mut k: usize = 0;
    while k < secs.len()
        invariant
            k <= secs@.len(),
            counts@.len() == k,
            totals@.len() == k,
            nd@.len() == nodes@.len(),
            leaves@.len() == nodes@.len(),
            forall|i: int| 0 <= i < nodes@.len() ==> vv(&nd@[i]) == dir_comps(#[trigger] nodes@[i]),
            forall|j: int| 0 <= j < nodes@.len() ==> leaves@[j] == node_leaves(#[trigger] nodes@[j]),
            all_leaves(nodes@) <= usize::MAX,
            forall|m: int| 0 <= m < k ==> counts@[m] == note_count(nodes@, #[trigger] dirs_view(secs@)[m]),
            forall|m: int| 0 <= m < k ==> totals@[m] == leaf_total(nodes@, #[trigger] dirs_view(secs@)[m]),
        decreases secs@.len() - k,
    {
        let (a, b) = section_counts(nodes, &nd, &leaves, &secs[k].comps);
        counts.push(a);
        totals.push(b);
        k = k + 1;
    }
    let mut out: Vec<SiteIndexPage> = Vec::new();
    let mut j: usize = 0;
    while j < secs.len()
        invariant
            j <= secs@.len(),
            out@.len() == j,
            counts@.len() == secs@.len(),
            totals@.len() == secs@.len(),
            forall|m: int| 0 <= m < secs@.len() ==> counts@[m] == note_count(nodes@, #[trigger] dirs_view(secs@)[m]),
            forall|m: int| 0 <= m < secs@.len() ==> totals@[m] == leaf_total(nodes@, #[trigger] dirs_view(secs@)[m]),
            nd@.len() == nodes@.len(),
            forall|i: int| 0 <= i < nodes@.len() ==> vv(&nd@[i]) == dir_comps(#[trigger] nodes@[i]),
            forall|m: int| 0 <= m < j ==> (#[trigger] out@[m]).output_path@ == site_page_path(dirs_view(secs@)[m])
                && out@[m].body@ == site_page_text(nodes@, dirs_view(secs@), dirs_view(eds@), dirs_view(secs@)[m]),
        decreases secs@.len() - j,
    {
        let s = &secs[j].comps;
        let sep = ['/'];
        assert(sep@ =~= seq!['/']);
        let dir = join_chars(s, &sep);
        let mut path = dir.clone();
        assert(path@ == dir@);
        if dir.len() > 0 {
            push_lit(&mut path, "/_index.md");
        } else {
            path = to_chars("_index.md");
        }
        proof {
            reveal_strlit("/_index.md");
            reveal_strlit("_index.md");
        }
        assert(path@ == site_page_path(dirs_view(secs@)[j as int]));
        let body = section_page(nodes, &nd, &secs, &eds, &counts, &totals, j);
        out.push(SiteIndexPage { output_path: from_chars(&path), body: from_chars(&body) });
        j = j + 1;
    }
    assert(site_indexes_are(nodes@, dirs_view(secs@), dirs_view(eds@), out@));
    out
}

} // verus!
