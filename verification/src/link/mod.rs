//! Links between pages: wikilink syntax, resolution, and the link graph.
pub mod resolver;
pub mod slug;
pub mod wikilink;

use vstd::prelude::*;
use crate::order::{lemma_path_lt_same, lemma_path_lt_trans, lemma_path_trichotomy, path_lt, path_lt_exec, same_path, same_path_exec};
use crate::strs::{push_string, sv};
use crate::model::{iter_pages, pages_of, pages_view, Node, PageV};
use crate::link::resolver::{file_stem, file_stem_exec, opt_str, resolve_spec, target_of, Resolver, TargetV, UnresolvedLink};
use crate::link::wikilink::{edges_of, find_links_spec, missing_of, resolve_in, unresolved_view, UnresolvedV};

verus! {

/// The graph of links between pages, in both directions:
/// - forward: a page to the pages it links to, in the order they first appear;
/// - backward: a page to the pages linking to it, by output path.
///
/// Pages are compared as `Path` compares them (component by component).
#[derive(Debug, Default)]
pub struct LinkGraph {
    pub forward: Vec<(String, Vec<String>)>,
    pub backward: Vec<(String, Vec<String>)>,
}

pub type Entries = Seq<(Seq<char>, Seq<Seq<char>>)>;

pub open spec fn entries_view(v: Seq<(String, Vec<String>)>) -> Entries {
    v.map_values(|e: (String, Vec<String>)| (e.0@, sv(e.1@)))
}

impl View for LinkGraph {
    type V = (Entries, Entries);

    open spec fn view(&self) -> (Entries, Entries) {
        (entries_view(self.forward@), entries_view(self.backward@))
    }
}

/// Index of the entry for page `p` (`es.len()` when there is none).
pub open spec fn key_index(es: Entries, p: Seq<char>) -> int
    decreases es.len(),
{
    if es.len() == 0 {
        0
    } else if same_path(es[0].0, p) {
        0
    } else {
        1 + key_index(es.drop_first(), p)
    }
}

pub proof fn lemma_key_index(es: Entries, p: Seq<char>)
    ensures
        0 <= key_index(es, p) <= es.len(),
        key_index(es, p) < es.len() ==> same_path(es[key_index(es, p)].0, p),
        forall|k: int| 0 <= k < key_index(es, p) ==> !same_path(#[trigger] es[k].0, p),
    decreases es.len(),
{
    if es.len() > 0 && !same_path(es[0].0, p) {
        lemma_key_index(es.drop_first(), p);
        assert forall|k: int| 0 <= k < key_index(es, p) implies !same_path(#[trigger] es[k].0, p) by {
            if k > 0 {
                assert(es[k] == es.drop_first()[k - 1]);
            }
        }
    }
}

/// The list stored for page `p` (empty when there is none).
pub open spec fn list_of(es: Entries, p: Seq<char>) -> Seq<Seq<char>> {
    if key_index(es, p) < es.len() {
        es[key_index(es, p)].1
    } else {
        seq![]
    }
}

/// `l` holds page `p`.
pub open spec fn has_path(l: Seq<Seq<char>>, p: Seq<char>) -> bool {
    exists|i: int| 0 <= i < l.len() && same_path(#[trigger] l[i], p)
}

/// Strictly increasing in path order.
pub open spec fn path_sorted(l: Seq<Seq<char>>) -> bool {
    forall|i: int, j: int| #![trigger l[i], l[j]] 0 <= i < j < l.len() ==> path_lt(l[i], l[j])
}

/// No page twice, and no page the same as `key`.
pub open spec fn distinct_paths(l: Seq<Seq<char>>, key: Seq<char>) -> bool {
    &&& forall|i: int, j: int| #![trigger l[i], l[j]] 0 <= i < j < l.len() ==> !same_path(l[i], l[j])
    &&& forall|i: int| 0 <= i < l.len() ==> !same_path(#[trigger] l[i], key)
}

pub open spec fn keys_distinct(es: Entries) -> bool {
    forall|i: int, j: int| #![trigger es[i], es[j]] 0 <= i < j < es.len() ==> !same_path(es[i].0, es[j].0)
}

/// The graph's invariant: one entry per page; forward lists without repeats
/// or self-links; backward lists strictly increasing, without self-links.
pub open spec fn graph_wf(g: (Entries, Entries)) -> bool {
    &&& keys_distinct(g.0)
    &&& keys_distinct(g.1)
    &&& forall|i: int| 0 <= i < g.0.len() ==> distinct_paths((#[trigger] g.0[i]).1, g.0[i].0)
    &&& forall|i: int| 0 <= i < g.1.len() ==> distinct_paths((#[trigger] g.1[i]).1, g.1[i].0) && path_sorted(g.1[i].1)
}

/// Number of items of `l` before `x` in path order.
pub open spec fn count_below(l: Seq<Seq<char>>, x: Seq<char>) -> int
    decreases l.len(),
{
    if l.len() == 0 {
        0
    } else if path_lt(l[0], x) {
        1 + count_below(l.drop_first(), x)
    } else {
        0
    }
}

/// `l` with `x` put in its place, unless `l` holds it already.
pub open spec fn insert_sorted(l: Seq<Seq<char>>, x: Seq<char>) -> Seq<Seq<char>> {
    if has_path(l, x) {
        l
    } else {
        l.take(count_below(l, x)) + seq![x] + l.skip(count_below(l, x))
    }
}

/// `l` with `x` at its end, unless `l` holds it already.
pub open spec fn append_new(l: Seq<Seq<char>>, x: Seq<char>) -> Seq<Seq<char>> {
    if has_path(l, x) {
        l
    } else {
        l.push(x)
    }
}

/// What `add_edge(from, to)` does to the lists of the graph.
pub open spec fn add_edge_post(g: (Entries, Entries), g2: (Entries, Entries), from: Seq<char>, to: Seq<char>) -> bool {
    if same_path(from, to) {
        g2 == g
    } else {
        &&& forall|p: Seq<char>| #[trigger] list_of(g2.0, p) == if same_path(p, from) { append_new(list_of(g.0, from), to) } else { list_of(g.0, p) }
        &&& forall|p: Seq<char>| #[trigger] list_of(g2.1, p) == if same_path(p, to) { insert_sorted(list_of(g.1, to), from) } else { list_of(g.1, p) }
    }
}

/// The forward entries after a link from `from` to `to`.
pub open spec fn put_forward(es: Entries, from: Seq<char>, to: Seq<char>) -> Entries {
    let k = key_index(es, from);
    if k < es.len() {
        es.update(k, (es[k].0, append_new(es[k].1, to)))
    } else {
        es.push((from, seq![to]))
    }
}

/// The backward entries after a link from `from` to `to`.
pub open spec fn put_backward(es: Entries, to: Seq<char>, from: Seq<char>) -> Entries {
    let k = key_index(es, to);
    if k < es.len() {
        es.update(k, (es[k].0, insert_sorted(es[k].1, from)))
    } else {
        es.push((to, seq![from]))
    }
}

/// The graph after `add_edge(from, to)`.
pub open spec fn add_edge_spec(g: (Entries, Entries), from: Seq<char>, to: Seq<char>) -> (Entries, Entries) {
    if same_path(from, to) {
        g
    } else {
        (put_forward(g.0, from, to), put_backward(g.1, to, from))
    }
}

/// The graph after adding the links `es` in order.
pub open spec fn add_edges_spec(g: (Entries, Entries), es: Seq<(Seq<char>, Seq<char>)>) -> (Entries, Entries)
    decreases es.len(),
{
    if es.len() == 0 {
        g
    } else {
        add_edges_spec(add_edge_spec(g, es[0].0, es[0].1), es.drop_first())
    }
}

pub proof fn lemma_add_edges_push(g: (Entries, Entries), es: Seq<(Seq<char>, Seq<char>)>, e: (Seq<char>, Seq<char>))
    ensures
        add_edges_spec(g, es.push(e)) == add_edge_spec(add_edges_spec(g, es), e.0, e.1),
    decreases es.len(),
{
    if es.len() > 0 {
        assert(es.push(e).drop_first() =~= es.drop_first().push(e));
        assert(es.push(e)[0] == es[0]);
        lemma_add_edges_push(add_edge_spec(g, es[0].0, es[0].1), es.drop_first(), e);
    } else {
        assert(es.push(e).drop_first() =~= Seq::<(Seq<char>, Seq<char>)>::empty());
        assert(es.push(e)[0] == e);
        assert(add_edges_spec(add_edge_spec(g, e.0, e.1), Seq::<(Seq<char>, Seq<char>)>::empty()) == add_edge_spec(g, e.0, e.1));
        assert(add_edges_spec(g, es) == g);
    }
}

/// `q` is a forward link of `p` exactly when `p` is a backward link of `q`.
pub open spec fn graph_symmetric(g: (Entries, Entries)) -> bool {
    forall|p: Seq<char>, q: Seq<char>| #[trigger] has_path(list_of(g.0, p), q) <==> #[trigger] has_path(list_of(g.1, q), p)
}

/// The representation invariant the maps and sets of the graph keep: one
/// entry per page, and each backward list strictly increasing.
pub open spec fn graph_repr(g: (Entries, Entries)) -> bool {
    &&& keys_distinct(g.0)
    &&& keys_distinct(g.1)
    &&& forall|i: int| 0 <= i < g.1.len() ==> path_sorted((#[trigger] g.1[i]).1)
}

pub proof fn lemma_key_index_same(es: Entries, p: Seq<char>, q: Seq<char>)
    requires
        same_path(p, q),
    ensures
        key_index(es, p) == key_index(es, q),
    decreases es.len(),
{
    if es.len() > 0 {
        lemma_key_index_same(es.drop_first(), p, q);
    }
}

pub proof fn lemma_key_index_update(es: Entries, i: int, e: (Seq<char>, Seq<Seq<char>>), p: Seq<char>)
    requires
        0 <= i < es.len(),
        e.0 == es[i].0,
    ensures
        key_index(es.update(i, e), p) == key_index(es, p),
    decreases es.len(),
{
    if es.len() > 0 {
        assert(es.update(i, e)[0].0 == es[0].0);
        if i > 0 {
            assert(es.update(i, e).drop_first() =~= es.drop_first().update(i - 1, e));
            lemma_key_index_update(es.drop_first(), i - 1, e, p);
        } else {
            assert(es.update(i, e).drop_first() =~= es.drop_first());
        }
    }
}

pub proof fn lemma_key_index_push(es: Entries, e: (Seq<char>, Seq<Seq<char>>), p: Seq<char>)
    ensures
        key_index(es.push(e), p) == if key_index(es, p) < es.len() {
            key_index(es, p)
        } else if same_path(e.0, p) {
            es.len() as int
        } else {
            es.len() + 1int
        },
    decreases es.len(),
{
    lemma_key_index(es, p);
    if es.len() > 0 {
        assert(es.push(e).drop_first() =~= es.drop_first().push(e));
        assert(es.push(e)[0] == es[0]);
        lemma_key_index_push(es.drop_first(), e, p);
    } else {
        assert(es.push(e).drop_first() =~= Seq::<(Seq<char>, Seq<Seq<char>>)>::empty());
        assert(es.push(e)[0] == e);
        assert(key_index(Seq::<(Seq<char>, Seq<Seq<char>>)>::empty(), p) == 0);
    }
}

/// Replacing the list of the entry of `k` (found at `i`) changes the lists of `k` only.
proof fn lemma_list_of_update(es: Entries, i: int, k: Seq<char>, l: Seq<Seq<char>>)
    requires
        0 <= i < es.len(),
        i == key_index(es, k),
    ensures
        forall|p: Seq<char>| #[trigger] list_of(es.update(i, (es[i].0, l)), p) == if same_path(p, k) { l } else { list_of(es, p) },
{
    lemma_key_index(es, k);
    assert forall|p: Seq<char>| #[trigger] list_of(es.update(i, (es[i].0, l)), p) == if same_path(p, k) { l } else { list_of(es, p) } by {
        lemma_key_index_update(es, i, (es[i].0, l), p);
        lemma_key_index(es, p);
        if same_path(p, k) {
            lemma_key_index_same(es, p, k);
        } else if key_index(es, p) == i {
            assert(same_path(es[i].0, p));
        }
    }
}

/// Adding an entry for a page without one gives that page its list.
proof fn lemma_list_of_push(es: Entries, k: Seq<char>, l: Seq<Seq<char>>)
    requires
        key_index(es, k) == es.len(),
    ensures
        forall|p: Seq<char>| #[trigger] list_of(es.push((k, l)), p) == if same_path(p, k) { l } else { list_of(es, p) },
{
    assert forall|p: Seq<char>| #[trigger] list_of(es.push((k, l)), p) == if same_path(p, k) { l } else { list_of(es, p) } by {
        lemma_key_index_push(es, (k, l), p);
        lemma_key_index(es, p);
        if same_path(p, k) {
            lemma_key_index_same(es, p, k);
        }
    }
}

proof fn lemma_keys_distinct_push(es: Entries, k: Seq<char>, l: Seq<Seq<char>>)
    requires
        keys_distinct(es),
        key_index(es, k) == es.len(),
    ensures
        keys_distinct(es.push((k, l))),
{
    lemma_key_index(es, k);
    let e2 = es.push((k, l));
    assert forall|i: int, j: int| #![trigger e2[i], e2[j]] 0 <= i < j < e2.len() implies !same_path(e2[i].0, e2[j].0) by {
        if j == es.len() {
            assert(!same_path(es[i].0, k));
        } else {
            assert(e2[i] == es[i] && e2[j] == es[j]);
        }
    }
}

proof fn lemma_keys_distinct_update(es: Entries, i: int, l: Seq<Seq<char>>)
    requires
        keys_distinct(es),
        0 <= i < es.len(),
    ensures
        keys_distinct(es.update(i, (es[i].0, l))),
{
    let e2 = es.update(i, (es[i].0, l));
    assert forall|a: int, b: int| #![trigger e2[a], e2[b]] 0 <= a < b < e2.len() implies !same_path(e2[a].0, e2[b].0) by {
        assert(e2[a].0 == es[a].0 && e2[b].0 == es[b].0);
    }
}

/// Inserting into a strictly increasing list keeps it so.
pub proof fn lemma_insert_sorted(l: Seq<Seq<char>>, x: Seq<char>)
    requires
        path_sorted(l),
    ensures
        path_sorted(insert_sorted(l, x)),
        forall|q: Seq<char>| has_path(insert_sorted(l, x), q) <==> has_path(l, q) || same_path(x, q),
{
    lemma_count_below(l, x);
    let r = insert_sorted(l, x);
    if !has_path(l, x) {
        let c = count_below(l, x);
        assert forall|i: int, j: int| #![trigger r[i], r[j]] 0 <= i < j < r.len() implies path_lt(r[i], r[j]) by {
            if i < c && j < c {
                assert(r[i] == l[i] && r[j] == l[j]);
            } else if i < c && j == c {
                assert(r[i] == l[i]);
            } else if i < c && j > c {
                assert(r[i] == l[i] && r[j] == l[j - 1]);
            } else if i == c {
                assert(r[j] == l[j - 1]);
                lemma_path_trichotomy(l[c], x);
                if !same_path(l[c], x) {
                    if j - 1 > c {
                        lemma_path_lt_trans(x, l[c], l[j - 1]);
                    }
                } else {
                    assert(same_path(l[c], x));
                }
            } else {
                assert(r[i] == l[i - 1] && r[j] == l[j - 1]);
            }
        }
        assert forall|q: Seq<char>| has_path(r, q) <==> has_path(l, q) || same_path(x, q) by {
            if has_path(r, q) {
                let i = choose|i: int| 0 <= i < r.len() && same_path(#[trigger] r[i], q);
                if i < c {
                    assert(r[i] == l[i]);
                } else if i > c {
                    assert(r[i] == l[i - 1]);
                }
            }
            if has_path(l, q) {
                let i = choose|i: int| 0 <= i < l.len() && same_path(#[trigger] l[i], q);
                if i < c {
                    assert(r[i] == l[i]);
                } else {
                    assert(r[i + 1] == l[i]);
                }
            }
            if same_path(x, q) {
                assert(r[c] == x);
            }
        }
    } else {
        assert forall|q: Seq<char>| has_path(r, q) <==> has_path(l, q) || same_path(x, q) by {
            if same_path(x, q) {
                let i = choose|i: int| 0 <= i < l.len() && same_path(#[trigger] l[i], x);
                assert(same_path(l[i], q));
            }
        }
    }
}

pub proof fn lemma_list_of_same(es: Entries, p: Seq<char>, q: Seq<char>)
    requires
        same_path(p, q),
    ensures
        list_of(es, p) == list_of(es, q),
{
    lemma_key_index_same(es, p, q);
}

pub proof fn lemma_append_new(l: Seq<Seq<char>>, x: Seq<char>)
    ensures
        forall|q: Seq<char>| has_path(append_new(l, x), q) <==> has_path(l, q) || same_path(x, q),
{
    assert forall|q: Seq<char>| has_path(append_new(l, x), q) <==> has_path(l, q) || same_path(x, q) by {
        if !has_path(l, x) {
            let r = l.push(x);
            if has_path(r, q) {
                let i = choose|i: int| 0 <= i < r.len() && same_path(#[trigger] r[i], q);
                if i < l.len() {
                    assert(r[i] == l[i]);
                }
            }
            if has_path(l, q) {
                let i = choose|i: int| 0 <= i < l.len() && same_path(#[trigger] l[i], q);
                assert(r[i] == l[i]);
            }
            if same_path(x, q) {
                assert(r[l.len() as int] == x);
            }
        } else if same_path(x, q) {
            let i = choose|i: int| 0 <= i < l.len() && same_path(#[trigger] l[i], x);
            assert(same_path(l[i], q));
        }
    }
}

/// Law: adding an edge keeps the two directions of the graph in step — `q`
/// is among the forward links of `p` exactly when `p` is among the backward
/// links of `q`.
pub proof fn lemma_add_edge_symmetric(g: (Entries, Entries), g2: (Entries, Entries), from: Seq<char>, to: Seq<char>)
    requires
        graph_repr(g),
        graph_symmetric(g),
        add_edge_post(g, g2, from, to),
    ensures
        graph_symmetric(g2),
{
    if !same_path(from, to) {
        lemma_append_new(list_of(g.0, from), to);
        lemma_key_index(g.1, to);
        if key_index(g.1, to) < g.1.len() {
            lemma_insert_sorted(list_of(g.1, to), from);
        } else {
            lemma_insert_sorted(Seq::<Seq<char>>::empty(), from);
        }
        assert forall|p: Seq<char>, q: Seq<char>| #[trigger] has_path(list_of(g2.0, p), q) <==> #[trigger] has_path(list_of(g2.1, q), p) by {
            assert(has_path(list_of(g.0, p), q) <==> has_path(list_of(g.1, q), p));
            if same_path(p, from) {
                lemma_list_of_same(g.0, p, from);
            }
            if same_path(q, to) {
                lemma_list_of_same(g.1, q, to);
            }
        }
    }
}

/// No page links to itself, and no forward list holds a page twice.
pub open spec fn graph_clean(g: (Entries, Entries)) -> bool {
    &&& forall|p: Seq<char>| #![trigger list_of(g.0, p)] !has_path(list_of(g.0, p), p)
    &&& forall|p: Seq<char>| #![trigger list_of(g.1, p)] !has_path(list_of(g.1, p), p)
    &&& forall|p: Seq<char>, i: int, j: int| #![trigger list_of(g.0, p)[i], list_of(g.0, p)[j]]
        0 <= i < j < list_of(g.0, p).len() ==> !same_path(list_of(g.0, p)[i], list_of(g.0, p)[j])
}

/// Law: adding an edge never makes a page link to itself, and never repeats
/// a page in a forward list (each target once, in the order of first
/// appearance).
pub proof fn lemma_add_edge_clean(g: (Entries, Entries), g2: (Entries, Entries), from: Seq<char>, to: Seq<char>)
    requires
        graph_repr(g),
        graph_clean(g),
        add_edge_post(g, g2, from, to),
    ensures
        graph_clean(g2),
{
    if !same_path(from, to) {
        lemma_append_new(list_of(g.0, from), to);
        lemma_key_index(g.1, to);
        if key_index(g.1, to) < g.1.len() {
            lemma_insert_sorted(list_of(g.1, to), from);
        } else {
            lemma_insert_sorted(Seq::<Seq<char>>::empty(), from);
        }
        assert forall|p: Seq<char>| #![trigger list_of(g2.0, p)] !has_path(list_of(g2.0, p), p) by {
            if same_path(p, from) {
                lemma_list_of_same(g.0, p, from);
            }
        }
        assert forall|p: Seq<char>| #![trigger list_of(g2.1, p)] !has_path(list_of(g2.1, p), p) by {
            if same_path(p, to) {
                lemma_list_of_same(g.1, p, to);
            }
        }
        assert forall|p: Seq<char>, i: int, j: int| #![trigger list_of(g2.0, p)[i], list_of(g2.0, p)[j]]
            0 <= i < j < list_of(g2.0, p).len() implies !same_path(list_of(g2.0, p)[i], list_of(g2.0, p)[j]) by {
            if same_path(p, from) {
                let l = list_of(g.0, from);
                lemma_list_of_same(g.0, p, from);
                if !has_path(l, to) {
                    let r = l.push(to);
                    if j == l.len() {
                        assert(r[i] == l[i]);
                    } else {
                        assert(r[i] == l[i] && r[j] == l[j]);
                    }
                }
            }
        }
    }
}

// ---------------------------------------------------------------------------
// Helpers
// ---------------------------------------------------------------------------

fn find_key(es: &Vec<(String, Vec<String>)>, p: &str) -> (r: usize)
    ensures
        r == key_index(entries_view(es@), p@),
{
    let ghost ev = entries_view(es@);
    proof {
        lemma_key_index(ev, p@);
    }
    let mut i: usize = 0;
    while i < es.len()
        invariant
            i <= es@.len(),
            ev == entries_view(es@),
            i <= key_index(ev, p@) <= ev.len(),
            key_index(ev, p@) < ev.len() ==> same_path(ev[key_index(ev, p@)].0, p@),
            forall|k: int| 0 <= k < key_index(ev, p@) ==> !same_path(#[trigger] ev[k].0, p@),
        decreases es@.len() - i,
    {
        assert(ev[i as int].0 == es@[i as int].0@);
        if same_path_exec(es[i].0.as_str(), p) {
            return i;
        }
        i = i + 1;
    }
    i
}

fn clone_strings(v: &Vec<String>) -> (r: Vec<String>)
    ensures
        sv(r@) == sv(v@),
{
    let mut out: Vec<String> = Vec::new();
    let mut i: usize = 0;
    while i < v.len()
        invariant
            i <= v@.len(),
            sv(out@) == sv(v@.take(i as int)),
        decreases v@.len() - i,
    {
        push_string(&mut out, v[i].clone());
        assert(sv(v@.take(i + 1)) =~= sv(v@.take(i as int)).push(v@[i as int]@));
        i = i + 1;
    }
    assert(v@.take(v@.len() as int) =~= v@);
    out
}

pub(crate) fn has_path_exec(l: &Vec<String>, p: &str) -> (b: bool)
    ensures
        b == has_path(sv(l@), p@),
{
    let mut i: usize = 0;
    while i < l.len()
        invariant
            i <= l@.len(),
            forall|k: int| 0 <= k < i ==> !same_path(#[trigger] sv(l@)[k], p@),
        decreases l@.len() - i,
    {
        if same_path_exec(l[i].as_str(), p) {
            assert(sv(l@)[i as int] == l@[i as int]@);
            return true;
        }
        assert(sv(l@)[i as int] == l@[i as int]@);
        i = i + 1;
    }
    false
}

pub proof fn lemma_count_below(l: Seq<Seq<char>>, x: Seq<char>)
    ensures
        0 <= count_below(l, x) <= l.len(),
        forall|k: int| 0 <= k < count_below(l, x) ==> path_lt(#[trigger] l[k], x),
        count_below(l, x) < l.len() ==> !path_lt(l[count_below(l, x)], x),
    decreases l.len(),
{
    if l.len() > 0 && path_lt(l[0], x) {
        lemma_count_below(l.drop_first(), x);
        assert forall|k: int| 0 <= k < count_below(l, x) implies path_lt(#[trigger] l[k], x) by {
            if k > 0 {
                assert(l[k] == l.drop_first()[k - 1]);
            }
        }
    }
}

/// Insert `x` into the sorted list `l` (no change when `l` holds it).
fn insert_sorted_exec(l: &mut Vec<String>, x: String)
    ensures
        sv(final(l)@) == insert_sorted(sv(old(l)@), x@),
{
    let ghost s = sv(l@);
    if has_path_exec(l, x.as_str()) {
        return;
    }
    proof {
        lemma_count_below(s, x@);
    }
    let mut k: usize = 0;
    while k < l.len() && path_lt_exec(l[k].as_str(), x.as_str())
        invariant
            k <= l@.len(),
            s == sv(l@),
            0 <= count_below(s, x@) <= s.len(),
            forall|j: int| 0 <= j < count_below(s, x@) ==> path_lt(#[trigger] s[j], x@),
            count_below(s, x@) < s.len() ==> !path_lt(s[count_below(s, x@)], x@),
            k <= count_below(s, x@),
        decreases l@.len() - k,
    {
        assert(s[k as int] == l@[k as int]@);
        k = k + 1;
    }
    proof {
        if k < l@.len() {
            assert(s[k as int] == l@[k as int]@);
        }
    }
    l.insert(k, x);
    assert(sv(l@) =~= s.take(k as int) + seq![x@] + s.skip(k as int));
}

impl LinkGraph {
    /// The view of an empty graph.
    pub open spec fn empty_view() -> (Entries, Entries) {
        (Seq::empty(), Seq::empty())
    }

    /// An empty graph.
    pub fn new() -> (g: LinkGraph)
        ensures
            g@ == LinkGraph::empty_view(),
            graph_repr(g@),
    {
        let g = LinkGraph { forward: Vec::new(), backward: Vec::new() };
        assert(g@.0 =~= Seq::<(Seq<char>, Seq<Seq<char>>)>::empty());
        assert(g@.1 =~= Seq::<(Seq<char>, Seq<Seq<char>>)>::empty());
        g
    }

    /// Add a link from `from` to `to`; a page's link to itself is not added.
    #[verifier::rlimit(60)]
    pub fn add_edge(&mut self, from: &str, to: &str)
        requires
            graph_repr(old(self)@),
        ensures
            graph_repr(final(self)@),
            final(self)@ == add_edge_spec(old(self)@, from@, to@),
            add_edge_post(old(self)@, final(self)@, from@, to@),
    {
        if same_path_exec(from, to) {
            return;
        }
        let ghost g = self@;
        // forward
        let fi = find_key(&self.forward, from);
        proof {
            lemma_key_index(g.0, from@);
        }
        if fi < self.forward.len() {
            if !has_path_exec(&self.forward[fi].1, to) {
                let mut list = clone_strings(&self.forward[fi].1);
                push_string(&mut list, String::from_str(to));
                let key = self.forward[fi].0.clone();
                self.forward.set(fi, (key, list));
                proof {
                    assert(entries_view(self.forward@) =~= g.0.update(fi as int, (g.0[fi as int].0, sv(list@))));
                    lemma_list_of_update(g.0, fi as int, from@, sv(list@));
                    lemma_keys_distinct_update(g.0, fi as int, sv(list@));
                }
            } else {
                proof {
                    assert forall|p: Seq<char>| #[trigger] list_of(self@.0, p) == if same_path(p, from@) { append_new(list_of(g.0, from@), to@) } else { list_of(g.0, p) } by {
                        if same_path(p, from@) {
                            lemma_key_index_same(g.0, p, from@);
                        }
                    }
                    assert(g.0.update(fi as int, (g.0[fi as int].0, append_new(g.0[fi as int].1, to@))) =~= g.0);
                }
            }
        } else {
            let mut list: Vec<String> = Vec::new();
            push_string(&mut list, String::from_str(to));
            assert(sv(list@) =~= seq![to@]);
            self.forward.push((String::from_str(from), list));
            proof {
                assert(entries_view(self.forward@) =~= g.0.push((from@, seq![to@])));
                lemma_list_of_push(g.0, from@, seq![to@]);
                lemma_keys_distinct_push(g.0, from@, seq![to@]);
                assert(list_of(g.0, from@) =~= Seq::<Seq<char>>::empty());
                assert(append_new(Seq::<Seq<char>>::empty(), to@) =~= seq![to@]);
            }
        }
        let ghost f2 = self@.0;
        // backward
        let bi = find_key(&self.backward, to);
        proof {
            lemma_key_index(g.1, to@);
        }
        if bi < self.backward.len() {
            let mut list = clone_strings(&self.backward[bi].1);
            proof {
                lemma_insert_sorted(sv(list@), from@);
            }
            insert_sorted_exec(&mut list, String::from_str(from));
            let key = self.backward[bi].0.clone();
            self.backward.set(bi, (key, list));
            proof {
                assert(entries_view(self.backward@) =~= g.1.update(bi as int, (g.1[bi as int].0, sv(list@))));
                lemma_list_of_update(g.1, bi as int, to@, sv(list@));
                lemma_keys_distinct_update(g.1, bi as int, sv(list@));
                let b2 = self@.1;
                assert forall|i: int| 0 <= i < b2.len() implies path_sorted((#[trigger] b2[i]).1) by {
                    if i != bi {
                        assert(b2[i] == g.1[i]);
                    }
                }
            }
        } else {
            let mut list: Vec<String> = Vec::new();
            push_string(&mut list, String::from_str(from));
            assert(sv(list@) =~= seq![from@]);
            self.backward.push((String::from_str(to), list));
            proof {
                assert(entries_view(self.backward@) =~= g.1.push((to@, seq![from@])));
                lemma_list_of_push(g.1, to@, seq![from@]);
                lemma_keys_distinct_push(g.1, to@, seq![from@]);
                assert(list_of(g.1, to@) =~= Seq::<Seq<char>>::empty());
                lemma_count_below(Seq::<Seq<char>>::empty(), from@);
                assert(insert_sorted(Seq::<Seq<char>>::empty(), from@) =~= seq![from@]);
                let b2 = self@.1;
                assert forall|i: int| 0 <= i < b2.len() implies path_sorted((#[trigger] b2[i]).1) by {
                    if i < g.1.len() {
                        assert(b2[i] == g.1[i]);
                    }
                }
            }
        }
        assert(self@.0 == f2);
    }

    /// The pages `path` links to, in the order the links were added.
    pub fn forward_of(&self, path: &str) -> (r: Vec<String>)
        ensures
            sv(r@) == list_of(self@.0, path@),
    {
        let i = find_key(&self.forward, path);
        if i < self.forward.len() {
            clone_strings(&self.forward[i].1)
        } else {
            Vec::new()
        }
    }

    /// The pages that link to `path`, in path order.
    pub fn backward_of(&self, path: &str) -> (r: Vec<String>)
        ensures
            sv(r@) == list_of(self@.1, path@),
    {
        let i = find_key(&self.backward, path);
        if i < self.backward.len() {
            clone_strings(&self.backward[i].1)
        } else {
            Vec::new()
        }
    }
}

// ---------------------------------------------------------------------------
// Resolving all notes
// ---------------------------------------------------------------------------

/// Where a front matter `related` entry of the note at `from` points: a known
/// page of that path, else the note its file stem (or the whole entry) names.
pub open spec fn related_target(name: Seq<char>, from: Seq<char>, ts: Seq<TargetV>, known: Seq<Seq<char>>) -> Option<Seq<char>> {
    if has_path(known, name) {
        Some(name)
    } else {
        resolve_spec(ts, match file_stem(name) { Some(s) => s, None => name }, from)
    }
}

/// Entry → entry links of the `related` entries `rs` of the note at `entry`.
pub open spec fn related_edges(ts: Seq<TargetV>, known: Seq<Seq<char>>, entry: Seq<char>, rs: Seq<Seq<char>>) -> Seq<(Seq<char>, Seq<char>)>
    decreases rs.len(),
{
    if rs.len() == 0 {
        seq![]
    } else {
        match related_target(rs[0], entry, ts, known) {
            Some(t) => seq![(entry, t)] + related_edges(ts, known, entry, rs.drop_first()),
            None => related_edges(ts, known, entry, rs.drop_first()),
        }
    }
}

/// The links of the pages `ps` of the note at `entry`, page by page, in body order.
pub open spec fn page_edges(ts: Seq<TargetV>, entry: Seq<char>, ps: Seq<PageV>) -> Seq<(Seq<char>, Seq<char>)>
    decreases ps.len(),
{
    if ps.len() == 0 {
        seq![]
    } else {
        edges_of(find_links_spec(ps[0].2), ts, entry).map_values(|e: Seq<char>| (ps[0].0, e))
            + page_edges(ts, entry, ps.drop_first())
    }
}

/// The unresolved links of the pages `ps` of the note at `entry`.
pub open spec fn page_missing(ts: Seq<TargetV>, entry: Seq<char>, ps: Seq<PageV>) -> Seq<UnresolvedV>
    decreases ps.len(),
{
    if ps.len() == 0 {
        seq![]
    } else {
        missing_of(find_links_spec(ps[0].2), ts, ps[0].0, entry) + page_missing(ts, entry, ps.drop_first())
    }
}

/// All links of the notes, in the order they are added to the graph.
pub open spec fn all_edges(ts: Seq<TargetV>, known: Seq<Seq<char>>, ns: Seq<Node>) -> Seq<(Seq<char>, Seq<char>)>
    decreases ns.len(),
{
    if ns.len() == 0 {
        seq![]
    } else {
        related_edges(ts, known, ns[0].output_path@, sv(ns[0].note.frontmatter.related@))
            + page_edges(ts, ns[0].output_path@, pages_of(ns[0]))
            + all_edges(ts, known, ns.drop_first())
    }
}

/// All unresolved links of the notes, note by note, page by page.
pub open spec fn all_missing(ts: Seq<TargetV>, ns: Seq<Node>) -> Seq<UnresolvedV>
    decreases ns.len(),
{
    if ns.len() == 0 {
        seq![]
    } else {
        page_missing(ts, ns[0].output_path@, pages_of(ns[0])) + all_missing(ts, ns.drop_first())
    }
}

pub open spec fn known_pages(ns: Seq<Node>) -> Seq<Seq<char>> {
    ns.map_values(|n: Node| n.output_path@)
}

pub open spec fn targets_of(ns: Seq<Node>) -> Seq<TargetV> {
    ns.map_values(|n: Node| target_of(n))
}

pub open spec fn unresolved_views(v: Seq<UnresolvedLink>) -> Seq<UnresolvedV> {
    v.map_values(|u: UnresolvedLink| unresolved_view(u))
}

fn resolve_related_entry(name: &str, from: &str, resolver: &Resolver, known: &Vec<String>) -> (r: Option<String>)
    ensures
        opt_str(r) == related_target(name@, from@, resolver@, sv(known@)),
{
    if has_path_exec(known, name) {
        return Some(String::from_str(name));
    }
    match file_stem_exec(name) {
        Some(s) => resolver.resolve(s.as_str(), from),
        None => resolver.resolve(name, from),
    }
}

/// Add the links of one page to the graph.
#[verifier::rlimit(40)]
fn add_page_edges(graph: &mut LinkGraph, page: &str, edges: &Vec<String>)
    requires
        graph_repr(old(graph)@),
    ensures
        graph_repr(final(graph)@),
        final(graph)@ == add_edges_spec(old(graph)@, sv(edges@).map_values(|e: Seq<char>| (page@, e))),
{
    let ghost g0 = graph@;
    let ghost es = sv(edges@).map_values(|e: Seq<char>| (page@, e));
    let mut i: usize = 0;
    assert(es.take(0) =~= Seq::<(Seq<char>, Seq<char>)>::empty());
    while i < edges.len()
        invariant
            i <= edges@.len(),
            es == sv(edges@).map_values(|e: Seq<char>| (page@, e)),
            graph_repr(graph@),
            graph@ == add_edges_spec(g0, es.take(i as int)),
        decreases edges@.len() - i,
    {
        graph.add_edge(page, edges[i].as_str());
        proof {
            assert(es.take(i + 1) =~= es.take(i as int).push(es[i as int]));
            lemma_add_edges_push(g0, es.take(i as int), es[i as int]);
        }
        i = i + 1;
    }
    assert(es.take(i as int) =~= es);
}

proof fn lemma_add_edges_concat(g: (Entries, Entries), a: Seq<(Seq<char>, Seq<char>)>, b: Seq<(Seq<char>, Seq<char>)>)
    ensures
        add_edges_spec(g, a + b) == add_edges_spec(add_edges_spec(g, a), b),
    decreases a.len(),
{
    if a.len() > 0 {
        assert((a + b).drop_first() =~= a.drop_first() + b);
        assert((a + b)[0] == a[0]);
        lemma_add_edges_concat(add_edge_spec(g, a[0].0, a[0].1), a.drop_first(), b);
    } else {
        assert(a + b =~= b);
    }
}

/// The links and misses of the pages of one note.
#[verifier::rlimit(60)]
fn resolve_pages(n: &Node, resolver: &Resolver, graph: &mut LinkGraph, unresolved: &mut Vec<UnresolvedLink>)
    requires
        graph_repr(old(graph)@),
    ensures
        graph_repr(final(graph)@),
        final(graph)@ == add_edges_spec(old(graph)@, page_edges(resolver@, n.output_path@, pages_of(*n))),
        unresolved_views(final(unresolved)@) == unresolved_views(old(unresolved)@) + page_missing(resolver@, n.output_path@, pages_of(*n)),
{
    let pages = iter_pages(n);
    let ghost ps = pages_view(pages@);
    let ghost g0 = graph@;
    let ghost u0 = unresolved_views(unresolved@);
    let entry = n.output_path.as_str();
    let mut i: usize = 0;
    assert(ps.skip(0) =~= ps);
    while i < pages.len()
        invariant
            i <= pages@.len(),
            ps == pages_view(pages@),
            ps == pages_of(*n),
            entry@ == n.output_path@,
            graph_repr(graph@),
            add_edges_spec(graph@, page_edges(resolver@, entry@, ps.skip(i as int)))
                == add_edges_spec(g0, page_edges(resolver@, entry@, ps)),
            unresolved_views(unresolved@) + page_missing(resolver@, entry@, ps.skip(i as int))
                == u0 + page_missing(resolver@, entry@, ps),
        decreases pages@.len() - i,
    {
        let page = &pages[i];
        let ghost rest = ps.skip(i as int);
        assert(rest[0] == page@);
        assert(rest.drop_first() =~= ps.skip(i + 1));
        let ghost gb = graph@;
        let ghost ub = unresolved_views(unresolved@);
        let (_rewritten, mut us, edges) = resolve_in(page.raw_body.as_str(), page.output_path.as_str(), entry, resolver);
        let ghost usv = unresolved_views(us@);
        unresolved.append(&mut us);
        add_page_edges(graph, page.output_path.as_str(), &edges);
        proof {
            let pe = edges_of(find_links_spec(page@.2), resolver@, entry@).map_values(|e: Seq<char>| (page@.0, e));
            assert(sv(edges@).map_values(|e: Seq<char>| (page.output_path@, e)) =~= pe);
            assert(page_edges(resolver@, entry@, rest) == pe + page_edges(resolver@, entry@, ps.skip(i + 1)));
            lemma_add_edges_concat(gb, pe, page_edges(resolver@, entry@, ps.skip(i + 1)));
            assert(unresolved_views(unresolved@) =~= ub + usv);
            assert(page_missing(resolver@, entry@, rest) == usv + page_missing(resolver@, entry@, ps.skip(i + 1)));
            assert(unresolved_views(unresolved@) + page_missing(resolver@, entry@, ps.skip(i + 1))
                =~= ub + page_missing(resolver@, entry@, rest));
        }
        i = i + 1;
    }
    proof {
        assert(ps.skip(i as int) =~= Seq::<PageV>::empty());
        assert(add_edges_spec(graph@, Seq::<(Seq<char>, Seq<char>)>::empty()) == graph@);
        assert(unresolved_views(unresolved@) + Seq::<UnresolvedV>::empty() =~= unresolved_views(unresolved@));
    }
}

/// The front matter `related` links of one note.
#[verifier::rlimit(40)]
fn resolve_related(n: &Node, resolver: &Resolver, known: &Vec<String>, graph: &mut LinkGraph)
    requires
        graph_repr(old(graph)@),
    ensures
        graph_repr(final(graph)@),
        final(graph)@ == add_edges_spec(old(graph)@, related_edges(resolver@, sv(known@), n.output_path@, sv(n.note.frontmatter.related@))),
{
    let rel = &n.note.frontmatter.related;
    let ghost rs = sv(rel@);
    let ghost g0 = graph@;
    let entry = n.output_path.as_str();
    let mut i: usize = 0;
    assert(rs.skip(0) =~= rs);
    while i < rel.len()
        invariant
            i <= rel@.len(),
            rs == sv(rel@),
            entry@ == n.output_path@,
            graph_repr(graph@),
            add_edges_spec(graph@, related_edges(resolver@, sv(known@), entry@, rs.skip(i as int)))
                == add_edges_spec(g0, related_edges(resolver@, sv(known@), entry@, rs)),
        decreases rel@.len() - i,
    {
        let ghost rest = rs.skip(i as int);
        assert(rest[0] == rel@[i as int]@);
        assert(rest.drop_first() =~= rs.skip(i + 1));
        let ghost gb = graph@;
        match resolve_related_entry(rel[i].as_str(), entry, resolver, known) {
            Some(t) => {
                graph.add_edge(entry, t.as_str());
                proof {
                    let e = seq![(entry@, t@)];
                    assert(related_edges(resolver@, sv(known@), entry@, rest) == e + related_edges(resolver@, sv(known@), entry@, rs.skip(i + 1)));
                    lemma_add_edges_concat(gb, e, related_edges(resolver@, sv(known@), entry@, rs.skip(i + 1)));
                    assert(e.drop_first() =~= Seq::<(Seq<char>, Seq<char>)>::empty());
                    assert(add_edges_spec(gb, e) == add_edges_spec(add_edge_spec(gb, entry@, t@), Seq::<(Seq<char>, Seq<char>)>::empty()));
                }
            },
            None => {},
        }
        i = i + 1;
    }
    proof {
        assert(rs.skip(i as int) =~= Seq::<Seq<char>>::empty());
        assert(add_edges_spec(graph@, Seq::<(Seq<char>, Seq<char>)>::empty()) == graph@);
    }
}

/// Read the bodies and `related` fields of all notes, and build the list of
/// unresolved links and the link graph; the bodies are left as they are.
/// The unresolved links come sorted by source page, then target.
#[verifier::rlimit(60)]
pub fn resolve_all(nodes: &[Node]) -> (r: (Vec<UnresolvedLink>, LinkGraph))
    ensures
        graph_repr(r.1@),
        r.1@ == add_edges_spec(LinkGraph::empty_view(), all_edges(targets_of(nodes@), known_pages(nodes@), nodes@)),
        crate::order::sorted_by_key(r.0@),
        unresolved_views(r.0@).to_multiset() == all_missing(targets_of(nodes@), nodes@).to_multiset(),
{
    let resolver = Resolver::build(nodes);
    let mut known: Vec<String> = Vec::new();
    let mut k: usize = 0;
    while k < nodes.len()
        invariant
            k <= nodes@.len(),
            sv(known@) == known_pages(nodes@.take(k as int)),
        decreases nodes@.len() - k,
    {
        push_string(&mut known, nodes[k].output_path.clone());
        assert(known_pages(nodes@.take(k + 1)) =~= known_pages(nodes@.take(k as int)).push(nodes@[k as int].output_path@));
        k = k + 1;
    }
    assert(nodes@.take(k as int) =~= nodes@);
    let ghost ts = targets_of(nodes@);
    let ghost kn = known_pages(nodes@);
    assert(resolver@ =~= ts);
    let mut graph = LinkGraph::new();
    let ghost g0 = graph@;
    assert(g0 == LinkGraph::empty_view());
    let mut unresolved: Vec<UnresolvedLink> = Vec::new();
    let mut i: usize = 0;
    assert(nodes@.skip(0) =~= nodes@);
    while i < nodes.len()
        invariant
            i <= nodes@.len(),
            resolver@ == ts,
            ts == targets_of(nodes@),
            sv(known@) == kn,
            kn == known_pages(nodes@),
            graph_repr(graph@),
            add_edges_spec(graph@, all_edges(ts, kn, nodes@.skip(i as int))) == add_edges_spec(g0, all_edges(ts, kn, nodes@)),
            unresolved_views(unresolved@) + all_missing(ts, nodes@.skip(i as int)) == all_missing(ts, nodes@),
        decreases nodes@.len() - i,
    {
        let n = &nodes[i];
        let ghost rest = nodes@.skip(i as int);
        assert(rest[0] == *n);
        assert(rest.drop_first() =~= nodes@.skip(i + 1));
        let ghost gb = graph@;
        let ghost ub = unresolved_views(unresolved@);
        resolve_related(n, &resolver, &known, &mut graph);
        let ghost gm = graph@;
        resolve_pages(n, &resolver, &mut graph, &mut unresolved);
        proof {
            let re = related_edges(ts, kn, n.output_path@, sv(n.note.frontmatter.related@));
            let pe = page_edges(ts, n.output_path@, pages_of(*n));
            let tail = all_edges(ts, kn, nodes@.skip(i + 1));
            assert(all_edges(ts, kn, rest) == re + pe + tail);
            lemma_add_edges_concat(gb, re + pe, tail);
            lemma_add_edges_concat(gb, re, pe);
            assert(all_missing(ts, rest) == page_missing(ts, n.output_path@, pages_of(*n)) + all_missing(ts, nodes@.skip(i + 1)));
            assert(unresolved_views(unresolved@) + all_missing(ts, nodes@.skip(i + 1))
                =~= ub + all_missing(ts, rest));
        }
        i = i + 1;
    }
    proof {
        assert(nodes@.skip(i as int) =~= Seq::<Node>::empty());
        assert(add_edges_spec(graph@, Seq::<(Seq<char>, Seq<char>)>::empty()) == graph@);
        assert(unresolved_views(unresolved@) + Seq::<UnresolvedV>::empty() =~= unresolved_views(unresolved@));
    }
    let ghost before = unresolved@;
    let sorted = crate::order::sort_by_key(unresolved);
    proof {
        lemma_map_multiset(sorted@, before);
    }
    (sorted, graph)
}

/// Sequences with the same multiset have views with the same multiset.
proof fn lemma_map_multiset(a: Seq<UnresolvedLink>, b: Seq<UnresolvedLink>)
    requires
        a.to_multiset() == b.to_multiset(),
    ensures
        unresolved_views(a).to_multiset() == unresolved_views(b).to_multiset(),
    decreases a.len(),
{
    broadcast use vstd::seq_lib::group_to_multiset_ensures;
    if a.len() == 0 {
        assert(b.to_multiset().len() == 0);
        assert(b.len() == 0);
        assert(unresolved_views(a) =~= unresolved_views(b));
    } else {
        let y = a.last();
        let a2 = a.drop_last();
        assert(a =~= a2.push(y));
        assert(a.to_multiset() =~= a2.to_multiset().insert(y));
        assert(b.to_multiset().count(y) > 0);
        assert(b.contains(y));
        let j = choose|j: int| 0 <= j < b.len() && b[j] == y;
        let b2 = b.remove(j);
        assert(b2.to_multiset() =~= b.to_multiset().remove(y));
        assert(a2.to_multiset() =~= b2.to_multiset());
        lemma_map_multiset(a2, b2);
        let fa = unresolved_views(a);
        let fb = unresolved_views(b);
        assert(fa =~= unresolved_views(a2).push(unresolved_view(y)));
        assert(fb.remove(j) =~= unresolved_views(b2));
        assert(fb[j] == unresolved_view(y));
        assert(fb.remove(j).to_multiset() =~= fb.to_multiset().remove(unresolved_view(y)));
        assert(fb.to_multiset().count(unresolved_view(y)) > 0) by {
            assert(fb.contains(unresolved_view(y)));
        }
        assert(fa.to_multiset() =~= unresolved_views(a2).to_multiset().insert(unresolved_view(y)));
        assert(fb.to_multiset() =~= fb.to_multiset().remove(unresolved_view(y)).insert(unresolved_view(y)));
    }
}

} // verus!
