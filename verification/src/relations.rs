//! The related pages and backlinks of each note.
//!
//! A note's related pages are first the ones its front matter names (by
//! path, or by the file stem of a page it links to), then up to three other
//! notes that share at least two tags with it, most shared tags first.
//! Its backlinks are the pages linking to its entry page.
use vstd::prelude::*;
use crate::link::resolver::{file_stem, file_stem_exec, opt_str};
use crate::link::{has_path, has_path_exec, list_of, LinkGraph};
use crate::model::Node;
use crate::order::{lemma_path_trichotomy, path_lt, path_lt_exec, same_path, same_path_exec};
use crate::render::tags::TagIndex;
use crate::render::unresolved::paths_strict;
use crate::strs::{chars_eq, push_string, sv, to_chars};

verus! {

broadcast use vstd::seq_lib::group_seq_properties;

/// At most this many notes are related by tags.
pub const RELATED_MAX: usize = 3;

/// Notes are related by tags when they share at least this many.
pub const RELATED_MIN_SHARED_TAGS: usize = 2;

// ---------------------------------------------------------------------------
// Front matter `related`
// ---------------------------------------------------------------------------

/// Of the pages `fwd` with file stem `entry`, the least in path order (the
/// earliest of equal paths).
pub open spec fn stem_match(fwd: Seq<Seq<char>>, entry: Seq<char>) -> Option<Seq<char>>
    decreases fwd.len(),
{
    if fwd.len() == 0 {
        None
    } else {
        let c = stem_match(fwd.drop_last(), entry);
        let p = fwd.last();
        if file_stem(p) == Some(entry) && (c is None || path_lt(p, c->0)) {
            Some(p)
        } else {
            c
        }
    }
}

/// The output paths of the nodes.
pub open spec fn node_paths(nodes: Seq<Node>) -> Seq<Seq<char>> {
    nodes.map_values(|n: Node| n.output_path@)
}

/// A `related` entry of a note: a node's output path as written, else the
/// page it links to whose file stem the entry is.
pub open spec fn resolve_related(nodes: Seq<Node>, fwd: Seq<Seq<char>>, entry: Seq<char>) -> Option<Seq<char>> {
    if has_path(node_paths(nodes), entry) {
        Some(entry)
    } else {
        stem_match(fwd, entry)
    }
}

/// The pages the `related` entries name, each once, not the note itself.
pub open spec fn named_related(nodes: Seq<Node>, fwd: Seq<Seq<char>>, self_path: Seq<char>, entries: Seq<Seq<char>>) -> Seq<Seq<char>>
    decreases entries.len(),
{
    if entries.len() == 0 {
        seq![]
    } else {
        let out = named_related(nodes, fwd, self_path, entries.drop_last());
        match resolve_related(nodes, fwd, entries.last()) {
            Some(p) => if !same_path(p, self_path) && !has_path(out, p) { out.push(p) } else { out },
            None => out,
        }
    }
}

// ---------------------------------------------------------------------------
// Shared tags
// ---------------------------------------------------------------------------

/// The number of different texts of `a` that `b` holds.
pub open spec fn shared_count(a: Seq<Seq<char>>, b: Seq<Seq<char>>) -> nat
    decreases a.len(),
{
    if a.len() == 0 {
        0
    } else {
        shared_count(a.drop_last(), b) + if !a.drop_last().contains(a.last()) && b.contains(a.last()) { 1nat } else { 0nat }
    }
}

/// The `i`-th node is the first with its path.
pub open spec fn first_with_path(nodes: Seq<Node>, i: int) -> bool {
    forall|j: int| 0 <= j < i ==> !same_path(#[trigger] nodes[j].output_path@, nodes[i].output_path@)
}

/// The paths of the nodes, each once as first written.
pub open spec fn path_keys(nodes: Seq<Node>) -> Set<Seq<char>> {
    Set::new(|k: Seq<char>| exists|i: int| 0 <= i < nodes.len() && nodes[i].output_path@ == k && #[trigger] first_with_path(nodes, i))
}

/// The tags of the last node with path `k`.
pub open spec fn tags_at(nodes: Seq<Node>, k: Seq<char>) -> Seq<Seq<char>>
    decreases nodes.len(),
{
    if nodes.len() == 0 {
        seq![]
    } else if same_path(nodes.last().output_path@, k) {
        sv(nodes.last().note.frontmatter.tags@)
    } else {
        tags_at(nodes.drop_last(), k)
    }
}

/// The notes (by path, in `keys` order) that are neither the note nor
/// already related, and share enough tags with it; each with its count.
pub open spec fn tag_candidates(nodes: Seq<Node>, keys: Seq<Seq<char>>, self_path: Seq<char>, self_tags: Seq<Seq<char>>, seen: Seq<Seq<char>>) -> Seq<(nat, Seq<char>)>
    decreases keys.len(),
{
    if keys.len() == 0 {
        seq![]
    } else {
        let r = tag_candidates(nodes, keys.drop_last(), self_path, self_tags, seen);
        let k = keys.last();
        let c = shared_count(tags_at(nodes, k), self_tags);
        if !same_path(k, self_path) && !has_path(seen, k) && c >= RELATED_MIN_SHARED_TAGS {
            r.push((c, k))
        } else {
            r
        }
    }
}

/// Where `x` goes among candidates by decreasing count: after every
/// candidate with at least its count.
pub open spec fn score_pos(s: Seq<(nat, Seq<char>)>, x: (nat, Seq<char>)) -> int
    decreases s.len(),
{
    if s.len() == 0 || s[0].0 < x.0 {
        0
    } else {
        1 + score_pos(s.drop_first(), x)
    }
}

/// Candidates ordered by decreasing count, equal counts kept in their order.
pub open spec fn by_score(s: Seq<(nat, Seq<char>)>) -> Seq<(nat, Seq<char>)>
    decreases s.len(),
{
    if s.len() == 0 {
        seq![]
    } else {
        let r = by_score(s.drop_last());
        let p = score_pos(r, s.last());
        r.take(p) + seq![s.last()] + r.skip(p)
    }
}

/// The paths of the first `RELATED_MAX` candidates.
pub open spec fn top_paths(s: Seq<(nat, Seq<char>)>) -> Seq<Seq<char>> {
    let t = if s.len() <= RELATED_MAX { s } else { s.take(RELATED_MAX as int) };
    t.map_values(|c: (nat, Seq<char>)| c.1)
}

/// The related pages of the `i`-th node, given the paths `keys` of all
/// nodes in path order.
pub open spec fn related_of(nodes: Seq<Node>, g: LinkGraph, keys: Seq<Seq<char>>, i: int) -> Seq<Seq<char>> {
    let n = nodes[i];
    let self_path = n.output_path@;
    let named = named_related(nodes, list_of(g@.0, self_path), self_path, sv(n.note.frontmatter.related@));
    let tags = sv(n.note.frontmatter.tags@);
    if tags.len() == 0 {
        named
    } else {
        named + top_paths(by_score(tag_candidates(nodes, keys, self_path, tags, named)))
    }
}

/// The backlinks a node gets: the pages linking to its entry page, under
/// that page, or none.
pub open spec fn backlinks_for(g: LinkGraph, p: Seq<char>) -> Seq<(Seq<char>, Seq<Seq<char>>)> {
    let b = list_of(g@.1, p);
    if b.len() == 0 {
        seq![]
    } else {
        seq![(p, b)]
    }
}

// ---------------------------------------------------------------------------
// Exec
// ---------------------------------------------------------------------------

fn stem_match_exec(fwd: &Vec<String>, entry: &str) -> (r: Option<String>)
    ensures
        opt_str(r) == stem_match(sv(fwd@), entry@),
{
    let mut cur: Option<String> = None;
    let mut i: usize = 0;
    while i < fwd.len()
        invariant
            i <= fwd@.len(),
            opt_str(cur) == stem_match(sv(fwd@).take(i as int), entry@),
        decreases fwd@.len() - i,
    {
        assert(sv(fwd@).take(i + 1).drop_last() =~= sv(fwd@).take(i as int));
        assert(sv(fwd@).take(i + 1).last() == fwd@[i as int]@);
        let p = fwd[i].as_str();
        let stem = file_stem_exec(p);
        let matches = match &stem {
            Some(s) => chars_eq(&to_chars(s.as_str()), &to_chars(entry)),
            None => false,
        };
        assert(matches == (file_stem(p@) == Some(entry@)));
        if matches {
            let better = match &cur {
                Some(c) => path_lt_exec(p, c.as_str()),
                None => true,
            };
            if better {
                cur = Some(fwd[i].clone());
            }
        }
        i = i + 1;
    }
    assert(sv(fwd@).take(fwd@.len() as int) =~= sv(fwd@));
    cur
}

fn node_paths_exec(nodes: &Vec<Node>) -> (r: Vec<String>)
    ensures
        sv(r@) == node_paths(nodes@),
{
    let mut out: Vec<String> = Vec::new();
    let mut i: usize = 0;
    while i < nodes.len()
        invariant
            i <= nodes@.len(),
            sv(out@) == node_paths(nodes@).take(i as int),
        decreases nodes@.len() - i,
    {
        push_string(&mut out, nodes[i].output_path.clone());
        assert(node_paths(nodes@).take(i + 1) =~= node_paths(nodes@).take(i as int).push(nodes@[i as int].output_path@));
        i = i + 1;
    }
    assert(node_paths(nodes@).take(nodes@.len() as int) =~= node_paths(nodes@));
    out
}

fn named_related_exec(nodes: &Vec<Node>, paths: &Vec<String>, fwd: &Vec<String>, self_path: &str, entries: &Vec<String>) -> (r: Vec<String>)
    requires
        sv(paths@) == node_paths(nodes@),
    ensures
        sv(r@) == named_related(nodes@, sv(fwd@), self_path@, sv(entries@)),
{
    let mut out: Vec<String> = Vec::new();
    let mut i: usize = 0;
    while i < entries.len()
        invariant
            i <= entries@.len(),
            sv(paths@) == node_paths(nodes@),
            sv(out@) == named_related(nodes@, sv(fwd@), self_path@, sv(entries@).take(i as int)),
        decreases entries@.len() - i,
    {
        assert(sv(entries@).take(i + 1).drop_last() =~= sv(entries@).take(i as int));
        assert(sv(entries@).take(i + 1).last() == entries@[i as int]@);
        let entry = entries[i].as_str();
        let resolved: Option<String> = if has_path_exec(paths, entry) {
            Some(entries[i].clone())
        } else {
            stem_match_exec(fwd, entry)
        };
        match resolved {
            Some(p) => {
                if !same_path_exec(p.as_str(), self_path) && !has_path_exec(&out, p.as_str()) {
                    push_string(&mut out, p);
                }
            },
            None => {},
        }
        i = i + 1;
    }
    assert(sv(entries@).take(entries@.len() as int) =~= sv(entries@));
    out
}

fn contains_text(v: &Vec<String>, k: usize, x: &str) -> (r: bool)
    requires
        k <= v@.len(),
    ensures
        r == sv(v@).take(k as int).contains(x@),
{
    let mut j: usize = 0;
    while j < k
        invariant
            j <= k <= v@.len(),
            forall|m: int| 0 <= m < j ==> v@[m]@ != x@,
        decreases k - j,
    {
        if chars_eq(&to_chars(v[j].as_str()), &to_chars(x)) {
            assert(sv(v@).take(k as int)[j as int] == x@);
            return true;
        }
        j = j + 1;
    }
    proof {
        if sv(v@).take(k as int).contains(x@) {
            let m = choose|m: int| 0 <= m < k && sv(v@).take(k as int)[m] == x@;
            assert(v@[m]@ == x@);
        }
    }
    false
}

fn shared_count_exec(a: &Vec<String>, b: &Vec<String>) -> (r: usize)
    ensures
        r == shared_count(sv(a@), sv(b@)),
{
    let mut n: usize = 0;
    let mut i: usize = 0;
    while i < a.len()
        invariant
            i <= a@.len(),
            n == shared_count(sv(a@).take(i as int), sv(b@)),
            n <= i,
        decreases a@.len() - i,
    {
        let ghost t = sv(a@).take(i + 1);
        assert(t.drop_last() =~= sv(a@).take(i as int));
        assert(t.last() == a@[i as int]@);
        let x = a[i].as_str();
        assert(sv(b@).take(b@.len() as int) =~= sv(b@));
        if !contains_text(a, i, x) && contains_text(b, b.len(), x) {
            n = n + 1;
        }
        i = i + 1;
    }
    assert(sv(a@).take(a@.len() as int) =~= sv(a@));
    n
}

/// The index of the last node with path `k`, if any.
fn last_with_path(nodes: &Vec<Node>, k: &str) -> (r: Option<usize>)
    ensures
        match r {
            Some(i) => i < nodes@.len() && tags_at(nodes@, k@) == sv(nodes@[i as int].note.frontmatter.tags@),
            None => tags_at(nodes@, k@) == Seq::<Seq<char>>::empty(),
        },
{
    let mut j = nodes.len();
    assert(nodes@.take(j as int) =~= nodes@);
    while j > 0
        invariant
            j <= nodes@.len(),
            tags_at(nodes@, k@) == tags_at(nodes@.take(j as int), k@),
        decreases j,
    {
        let ghost t = nodes@.take(j as int);
        assert(t.last() == nodes@[j - 1]);
        assert(t.drop_last() =~= nodes@.take(j - 1));
        if same_path_exec(nodes[j - 1].output_path.as_str(), k) {
            return Some(j - 1);
        }
        j = j - 1;
    }
    None
}

fn empty_strings() -> (r: Vec<String>)
    ensures
        r@.len() == 0,
{
    Vec::new()
}

/// The shared-tag count with the last node at path `k`.
fn shared_with(nodes: &Vec<Node>, k: &str, self_tags: &Vec<String>) -> (r: usize)
    ensures
        r == shared_count(tags_at(nodes@, k@), sv(self_tags@)),
{
    match last_with_path(nodes, k) {
        Some(i) => shared_count_exec(&nodes[i].note.frontmatter.tags, self_tags),
        None => {
            let e = empty_strings();
            assert(sv(e@) =~= Seq::<Seq<char>>::empty());
            shared_count_exec(&e, self_tags)
        },
    }
}

fn is_first_with_path(nodes: &Vec<Node>, i: usize) -> (r: bool)
    requires
        i < nodes@.len(),
    ensures
        r == first_with_path(nodes@, i as int),
{
    let mut j: usize = 0;
    while j < i
        invariant
            j <= i < nodes@.len(),
            forall|m: int| 0 <= m < j ==> !same_path(#[trigger] nodes@[m].output_path@, nodes@[i as int].output_path@),
        decreases i - j,
    {
        if same_path_exec(nodes[j].output_path.as_str(), nodes[i].output_path.as_str()) {
            return false;
        }
        j = j + 1;
    }
    true
}

/// The paths of the nodes, each once as first written, in path order.
fn path_key_list(nodes: &Vec<Node>) -> (r: Vec<String>)
    ensures
        paths_strict(sv(r@)),
        sv(r@).to_set() == path_keys(nodes@),
{
    let mut reps: Vec<String> = Vec::new();
    let ghost mut at: Seq<int> = Seq::empty();
    let mut i: usize = 0;
    while i < nodes.len()
        invariant
            i <= nodes@.len(),
            at.len() == reps@.len(),
            forall|a: int| 0 <= a < reps@.len() ==> 0 <= #[trigger] at[a] < i && reps@[a]@ == nodes@[at[a]].output_path@ && first_with_path(nodes@, at[a]),
            forall|a: int, b: int| 0 <= a < b < reps@.len() ==> at[a] < at[b],
            forall|m: int| 0 <= m < i && #[trigger] first_with_path(nodes@, m) ==> exists|a: int| 0 <= a < reps@.len() && at[a] == m,
        decreases nodes@.len() - i,
    {
        let ghost old_at = at;
        if is_first_with_path(nodes, i) {
            reps.push(nodes[i].output_path.clone());
            proof {
                at = at.push(i as int);
            }
        }
        proof {
            assert forall|m: int| 0 <= m < i + 1 && #[trigger] first_with_path(nodes@, m) implies exists|a: int| 0 <= a < reps@.len() && at[a] == m by {
                if m == i {
                    assert(at[at.len() - 1] == m);
                } else {
                    let a = choose|a: int| 0 <= a < old_at.len() && old_at[a] == m;
                    assert(at[a] == old_at[a]);
                }
            }
        }
        i = i + 1;
    }
    proof {
        assert forall|a: int, b: int| 0 <= a < reps@.len() && 0 <= b < reps@.len() && a != b implies !same_path(reps@[a]@, reps@[b]@) by {
            if a < b {
                assert(!same_path(nodes@[at[a]].output_path@, nodes@[at[b]].output_path@));
            } else {
                assert(!same_path(nodes@[at[b]].output_path@, nodes@[at[a]].output_path@));
                lemma_path_trichotomy(reps@[a]@, reps@[b]@);
                lemma_path_trichotomy(reps@[b]@, reps@[a]@);
            }
        }
    }
    let ghost orig = reps@;
    let (keys, Ghost(w)) = crate::order::sort_unique(reps);
    proof {
        assert forall|i: int, j: int| 0 <= i < j < sv(keys@).len() implies path_lt(#[trigger] sv(keys@)[i], #[trigger] sv(keys@)[j]) by {
            assert(crate::order::Keyed::key_lt(&keys@[i], &keys@[j]));
        }
        assert forall|k: Seq<char>| sv(keys@).to_set().contains(k) <==> path_keys(nodes@).contains(k) by {
            if sv(keys@).to_set().contains(k) {
                let x = choose|x: int| 0 <= x < sv(keys@).len() && sv(keys@)[x] == k;
                assert(orig.contains(keys@[x]));
                let a = choose|a: int| 0 <= a < orig.len() && orig[a] == keys@[x];
                assert(first_with_path(nodes@, at[a]));
            }
            if path_keys(nodes@).contains(k) {
                let m = choose|m: int| 0 <= m < nodes@.len() && nodes@[m].output_path@ == k && #[trigger] first_with_path(nodes@, m);
                let a = choose|a: int| 0 <= a < orig.len() && at[a] == m;
                let x = w[a];
                assert(crate::order::key_eq(keys@[x], orig[a]));
                assert(orig.contains(keys@[x]));
                let b = choose|b: int| 0 <= b < orig.len() && orig[b] == keys@[x];
                lemma_path_trichotomy(orig[b]@, orig[a]@);
                if b != a {
                    assert(!same_path(orig[b]@, orig[a]@));
                }
                assert(sv(keys@)[x] == k);
            }
        }
    }
    keys
}

pub open spec fn scored_view(v: Seq<(usize, String)>) -> Seq<(nat, Seq<char>)> {
    v.map_values(|c: (usize, String)| (c.0 as nat, c.1@))
}

proof fn lemma_score_pos(s: Seq<(nat, Seq<char>)>, x: (nat, Seq<char>))
    ensures
        0 <= score_pos(s, x) <= s.len(),
    decreases s.len(),
{
    if s.len() > 0 && !(s[0].0 < x.0) {
        lemma_score_pos(s.drop_first(), x);
    }
}

/// Put a candidate in its place by decreasing count.
fn insert_scored(v: &mut Vec<(usize, String)>, x: (usize, String))
    ensures
        scored_view(final(v)@) == ({
            let s = scored_view(old(v)@);
            let p = score_pos(s, (x.0 as nat, x.1@));
            s.take(p) + seq![(x.0 as nat, x.1@)] + s.skip(p)
        }),
{
    let ghost s = scored_view(v@);
    let ghost xv = (x.0 as nat, x.1@);
    proof {
        lemma_score_pos(s, xv);
    }
    let mut k: usize = 0;
    assert(s.skip(0) =~= s);
    while k < v.len() && !(v[k].0 < x.0)
        invariant
            k <= v@.len(),
            s == scored_view(v@),
            xv == (x.0 as nat, x.1@),
            score_pos(s, xv) == k + score_pos(s.skip(k as int), xv),
        decreases v@.len() - k,
    {
        assert(s.skip(k as int)[0] == s[k as int]);
        assert(s.skip(k as int).drop_first() =~= s.skip(k + 1));
        k = k + 1;
    }
    proof {
        if k < v@.len() {
            assert(s.skip(k as int)[0] == s[k as int]);
        }
    }
    assert(score_pos(s, xv) == k);
    v.insert(k, x);
    assert(scored_view(v@) =~= s.take(k as int) + seq![xv] + s.skip(k as int));
}

/// The related pages of node `i`.
fn related_exec(nodes: &Vec<Node>, paths: &Vec<String>, keys: &Vec<String>, graph: &LinkGraph, i: usize) -> (r: Vec<String>)
    requires
        i < nodes@.len(),
        sv(paths@) == node_paths(nodes@),
    ensures
        sv(r@) == related_of(nodes@, *graph, sv(keys@), i as int),
{
    let n = &nodes[i];
    let self_path = n.output_path.as_str();
    let fwd = graph.forward_of(self_path);
    let mut out = named_related_exec(nodes, paths, &fwd, self_path, &n.note.frontmatter.related);
    let ghost named = sv(out@);
    let tags = &n.note.frontmatter.tags;
    if tags.len() == 0 {
        return out;
    }
    // candidates in key order, put in place by decreasing count
    let mut scored: Vec<(usize, String)> = Vec::new();
    let ghost tv = sv(tags@);
    let mut k: usize = 0;
    while k < keys.len()
        invariant
            k <= keys@.len(),
            i < nodes@.len(),
            named == sv(out@),
            tv == sv(tags@),
            scored_view(scored@) == by_score(tag_candidates(nodes@, sv(keys@).take(k as int), self_path@, tv, named)),
        decreases keys@.len() - k,
    {
        let ghost pre = sv(keys@).take(k as int);
        assert(sv(keys@).take(k + 1).drop_last() =~= pre);
        assert(sv(keys@).take(k + 1).last() == keys@[k as int]@);
        let key = keys[k].as_str();
        let c = shared_with(nodes, key, tags);
        if !same_path_exec(key, self_path) && !has_path_exec(&out, key) && c >= RELATED_MIN_SHARED_TAGS {
            let ghost cands = tag_candidates(nodes@, pre, self_path@, tv, named);
            assert(tag_candidates(nodes@, sv(keys@).take(k + 1), self_path@, tv, named) == cands.push((c as nat, key@)));
            assert(cands.push((c as nat, key@)).drop_last() =~= cands);
            insert_scored(&mut scored, (c, keys[k].clone()));
        }
        k = k + 1;
    }
    assert(sv(keys@).take(keys@.len() as int) =~= sv(keys@));
    let ghost all = scored_view(scored@);
    let limit = if scored.len() <= RELATED_MAX { scored.len() } else { RELATED_MAX };
    let ghost top = top_paths(all);
    assert(top.len() == limit);
    let mut j: usize = 0;
    while j < limit
        invariant
            j <= limit <= scored@.len(),
            all == scored_view(scored@),
            top == top_paths(all),
            top.len() == limit,
            sv(out@) == named + top.take(j as int),
        decreases limit - j,
    {
        assert(top[j as int] == scored@[j as int].1@);
        push_string(&mut out, scored[j].1.clone());
        assert(top.take(j + 1) =~= top.take(j as int).push(top[j as int]));
        j = j + 1;
    }
    assert(top.take(limit as int) =~= top);
    out
}

/// Set the related pages and backlinks of every note: related pages as the
/// note's front matter names them, then up to `RELATED_MAX` other notes
/// sharing at least `RELATED_MIN_SHARED_TAGS` tags with it (most shared
/// first, then by path); backlinks as the pages linking to its entry page.
/// Nothing else of a node changes.
pub fn compute_relations(nodes: &mut Vec<Node>, graph: &LinkGraph, tag_index: &TagIndex)
    ensures
        final(nodes)@.len() == old(nodes)@.len(),
        exists|keys: Seq<Seq<char>>| #![trigger paths_strict(keys)]
            paths_strict(keys) && keys.to_set() == path_keys(old(nodes)@)
            && forall|i: int| 0 <= i < old(nodes)@.len() ==> {
                let o = #[trigger] old(nodes)@[i];
                let f = final(nodes)@[i];
                &&& f.output_path == o.output_path
                &&& f.entry_dir == o.entry_dir
                &&& f.title == o.title
                &&& f.note == o.note
                &&& f.fragments == o.fragments
                &&& sv(f.related@) == related_of(old(nodes)@, *graph, keys, i)
                &&& crate::render::fragment::backlinks_view(f) == backlinks_for(*graph, o.output_path@)
            },
{
    let ghost orig = nodes@;
    let paths = node_paths_exec(nodes);
    let keys = path_key_list(nodes);
    let mut results: Vec<(Vec<String>, Vec<String>)> = Vec::new();
    let mut i: usize = 0;
    while i < nodes.len()
        invariant
            i <= nodes@.len(),
            nodes@ == orig,
            sv(paths@) == node_paths(orig),
            results@.len() == i,
            forall|m: int| 0 <= m < i ==> sv((#[trigger] results@[m]).0@) == related_of(orig, *graph, sv(keys@), m)
                && sv(results@[m].1@) == list_of(graph@.1, orig[m].output_path@),
        decreases nodes@.len() - i,
    {
        let related = related_exec(nodes, &paths, &keys, graph, i);
        let back = graph.backward_of(nodes[i].output_path.as_str());
        results.push((related, back));
        i = i + 1;
    }
    let mut taken: Vec<Node> = Vec::new();
    std::mem::swap(nodes, &mut taken);
    let n = taken.len();
    let mut k: usize = 0;
    while k < n
        invariant
            k <= n == orig.len() == results@.len(),
            taken@ == orig.skip(k as int),
            nodes@.len() == k,
            forall|m: int| 0 <= m < k ==> {
                let o = #[trigger] orig[m];
                let f = nodes@[m];
                &&& f.output_path == o.output_path
                &&& f.entry_dir == o.entry_dir
                &&& f.title == o.title
                &&& f.note == o.note
                &&& f.fragments == o.fragments
                &&& sv(f.related@) == related_of(orig, *graph, sv(keys@), m)
                &&& crate::render::fragment::backlinks_view(f) == backlinks_for(*graph, o.output_path@)
            },
            forall|m: int| 0 <= m < n ==> sv((#[trigger] results@[m]).0@) == related_of(orig, *graph, sv(keys@), m)
                && sv(results@[m].1@) == list_of(graph@.1, orig[m].output_path@),
        decreases n - k,
    {
        let mut node = taken.remove(0);
        assert(node == orig[k as int]);
        assert(taken@ =~= orig.skip(k + 1));
        let (related, back) = (clone_list(&results[k].0), clone_list(&results[k].1));
        node.related = related;
        let mut bl: Vec<(String, Vec<String>)> = Vec::new();
        if back.len() > 0 {
            bl.push((node.output_path.clone(), back));
        }
        node.backlinks = bl;
        assert(crate::render::fragment::backlinks_view(node) =~= backlinks_for(*graph, orig[k as int].output_path@));
        nodes.push(node);
        k = k + 1;
    }
    assert(paths_strict(sv(keys@)));
}

fn clone_list(v: &Vec<String>) -> (r: Vec<String>)
    ensures
        sv(r@) == sv(v@),
{
    let mut out: Vec<String> = Vec::new();
    let mut i: usize = 0;
    while i < v.len()
        invariant
            i <= v@.len(),
            sv(out@) == sv(v@).take(i as int),
        decreases v@.len() - i,
    {
        push_string(&mut out, v[i].clone());
        assert(sv(v@).take(i + 1) =~= sv(v@).take(i as int).push(v@[i as int]@));
        i = i + 1;
    }
    assert(sv(v@).take(v@.len() as int) =~= sv(v@));
    out
}

} // verus!
