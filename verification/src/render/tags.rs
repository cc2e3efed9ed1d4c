//! The tag index: every tag of every note, each prefix of a nested tag
//! (`a/b/c` counts as `a`, `a/b` and `a/b/c`), with the entry pages of the
//! notes that carry it; and the pages that list them.
use vstd::prelude::*;
use crate::model::Node;
use crate::num::{decimal, decimal_chars};
use crate::order::{path_lt, path_lt_exec, same_path, same_path_exec, text_lt, text_lt_exec};
use crate::paths::{path_of, relative, relative_link};
use crate::strs::{first_index_of, from_chars, join, join_range, push_all, slice_copy, split_chars, split_on, sv, to_chars, trim, trim_idx, vv};

verus! {

/// The tags of all nodes.
#[derive(Debug, Default)]
pub struct TagIndex {
    /// Normalized tag to the nodes' output paths (sorted, each once).
    pub entries: Vec<(String, Vec<String>)>,
}

pub type TagEntryV = (Seq<char>, Seq<Seq<char>>);

pub open spec fn entries_view(e: Seq<(String, Vec<String>)>) -> Seq<TagEntryV> {
    e.map_values(|p: (String, Vec<String>)| (p.0@, sv(p.1@)))
}

impl View for TagIndex {
    type V = Seq<TagEntryV>;

    open spec fn view(&self) -> Seq<TagEntryV> {
        entries_view(self.entries@)
    }
}

// ---------------------------------------------------------------------------
// Tag names
// ---------------------------------------------------------------------------

/// The non-empty pieces.
pub open spec fn keep_nonempty(ps: Seq<Seq<char>>) -> Seq<Seq<char>>
    decreases ps.len(),
{
    if ps.len() == 0 {
        seq![]
    } else if ps[0].len() > 0 {
        seq![ps[0]] + keep_nonempty(ps.drop_first())
    } else {
        keep_nonempty(ps.drop_first())
    }
}

/// The segments of a tag: its `/`-separated pieces that are not empty.
pub open spec fn tag_parts(t: Seq<char>) -> Seq<Seq<char>> {
    keep_nonempty(split_on(t, '/'))
}

/// `auth/session/x` → `["auth", "auth/session", "auth/session/x"]`.
pub open spec fn tag_prefixes_of(t: Seq<char>) -> Seq<Seq<char>> {
    let parts = tag_parts(t);
    Seq::new(parts.len(), |k: int| join(parts.take(k + 1), seq!['/']))
}

fn tag_parts_exec(tag: &[char]) -> (r: Vec<Vec<char>>)
    ensures
        vv(&r) == tag_parts(tag@),
{
    let pieces = split_chars(tag, '/');
    let mut r: Vec<Vec<char>> = Vec::new();
    let mut i: usize = 0;
    assert(vv(&pieces).skip(0) =~= vv(&pieces));
    assert(vv(&r) =~= Seq::<Seq<char>>::empty());
    while i < pieces.len()
        invariant
            i <= pieces@.len(),
            vv(&pieces) == split_on(tag@, '/'),
            vv(&r) + keep_nonempty(vv(&pieces).skip(i as int)) == tag_parts(tag@),
        decreases pieces@.len() - i,
    {
        let ghost rest = vv(&pieces).skip(i as int);
        assert(rest[0] == pieces@[i as int]@);
        assert(rest.drop_first() =~= vv(&pieces).skip(i + 1));
        if pieces[i].len() > 0 {
            let ghost before = vv(&r);
            r.push(slice_copy(&pieces[i], 0, pieces[i].len()));
            assert(pieces@[i as int]@.subrange(0, pieces@[i as int]@.len() as int) =~= pieces@[i as int]@);
            assert(vv(&r) =~= before.push(pieces@[i as int]@));
            assert(vv(&r) + keep_nonempty(vv(&pieces).skip(i + 1)) =~= before + keep_nonempty(rest));
        }
        i = i + 1;
    }
    assert(vv(&pieces).skip(i as int) =~= Seq::<Seq<char>>::empty());
    assert(vv(&r) + Seq::<Seq<char>>::empty() =~= vv(&r));
    r
}

/// `auth/session/x` → `["auth", "auth/session", "auth/session/x"]`
pub fn tag_prefixes(tag: &str) -> (r: Vec<String>)
    ensures
        sv(r@) == tag_prefixes_of(tag@),
{
    let parts = tag_parts_exec(&to_chars(tag));
    let ghost ps = vv(&parts);
    let mut out: Vec<String> = Vec::new();
    let mut n: usize = 0;
    let sep = ['/'];
    assert(sep@ =~= seq!['/']);
    while n < parts.len()
        invariant
            n <= parts@.len(),
            ps == vv(&parts),
            ps == tag_parts(tag@),
            sep@ == seq!['/'],
            sv(out@) == Seq::new(n as nat, |k: int| join(ps.take(k + 1), seq!['/'])),
        decreases parts@.len() - n,
    {
        let j = join_range(&parts, 0, n + 1, &sep);
        assert(ps.subrange(0, n + 1) =~= ps.take(n + 1));
        let ghost before = sv(out@);
        let js = from_chars(&j);
        assert(js@ == join(ps.take(n + 1), seq!['/']));
        out.push(js);
        assert(sv(out@) =~= before.push(js@));
        assert(sv(out@) =~= Seq::new((n + 1) as nat, |k: int| join(ps.take(k + 1), seq!['/'])));
        n = n + 1;
    }
    out
}

/// The page of a tag: `tags/<segments but the last>/<last>.md`.
pub open spec fn tag_path_of(tag: Seq<char>) -> Seq<char> {
    let parts = tag_parts(tag);
    path_of(seq!["tags"@] + parts.drop_last() + seq![parts.last() + ".md"@])
}

/// The output path of a normalized tag:
/// `auth` gives `tags/auth.md`,
/// `auth/session` gives `tags/auth/session.md`.
pub fn tag_page_path(tag: &str) -> (r: String)
    requires
        tag_parts(tag@).len() > 0,
    ensures
        r@ == tag_path_of(tag@),
{
    let parts = tag_parts_exec(&to_chars(tag));
    let ghost ps = vv(&parts);
    let mut segs: Vec<Vec<char>> = Vec::new();
    segs.push(to_chars("tags"));
    assert(vv(&segs) =~= seq!["tags"@]);
    assert(ps.take(0) =~= Seq::<Seq<char>>::empty());
    assert(seq!["tags"@] + ps.take(0) =~= seq!["tags"@]);
    let mut i: usize = 0;
    while i < parts.len() - 1
        invariant
            0 < parts@.len(),
            i + 1 <= parts@.len(),
            ps == vv(&parts),
            vv(&segs) == seq!["tags"@] + ps.take(i as int),
        decreases parts@.len() - i,
    {
        let ghost before = vv(&segs);
        segs.push(slice_copy(&parts[i], 0, parts[i].len()));
        assert(parts@[i as int]@.subrange(0, parts@[i as int]@.len() as int) =~= parts@[i as int]@);
        assert(vv(&segs) =~= before.push(ps[i as int]));
        assert(seq!["tags"@] + ps.take(i + 1) =~= (seq!["tags"@] + ps.take(i as int)).push(ps[i as int]));
        i = i + 1;
    }
    let last = parts.len() - 1;
    let mut name = slice_copy(&parts[last], 0, parts[last].len());
    assert(parts@[last as int]@.subrange(0, parts@[last as int]@.len() as int) =~= parts@[last as int]@);
    assert(ps.last() == parts@[last as int]@);
    push_all(&mut name, &to_chars(".md"));
    assert(name@ =~= ps.last() + ".md"@);
    let ghost before = vv(&segs);
    segs.push(name);
    assert(vv(&segs) =~= before.push(ps.last() + ".md"@));
    assert(ps.take(i as int) =~= ps.drop_last());
    assert(vv(&segs) =~= seq!["tags"@] + ps.drop_last() + seq![ps.last() + ".md"@]);
    let sep = ['/'];
    assert(sep@ =~= seq!['/']);
    from_chars(&crate::strs::join_chars(&segs, &sep))
}

// ---------------------------------------------------------------------------
// Building the index
// ---------------------------------------------------------------------------

/// Number of leading entries whose tag sorts before `key`.
pub open spec fn key_pos(e: Seq<TagEntryV>, key: Seq<char>) -> int
    decreases e.len(),
{
    if e.len() > 0 && text_lt(e[0].0, key) {
        1 + key_pos(e.drop_first(), key)
    } else {
        0
    }
}

/// Number of leading paths that sort before `x`.
pub open spec fn path_pos(ps: Seq<Seq<char>>, x: Seq<char>) -> int
    decreases ps.len(),
{
    if ps.len() > 0 && path_lt(ps[0], x) {
        1 + path_pos(ps.drop_first(), x)
    } else {
        0
    }
}

/// `x` put among the sorted paths `ps`, unless a path naming the same file is there.
pub open spec fn add_path(ps: Seq<Seq<char>>, x: Seq<char>) -> Seq<Seq<char>> {
    let c = path_pos(ps, x);
    if c < ps.len() && same_path(ps[c], x) {
        ps
    } else {
        ps.take(c) + seq![x] + ps.skip(c)
    }
}

/// The note path `x` recorded under `key`.
pub open spec fn add_tag(e: Seq<TagEntryV>, key: Seq<char>, x: Seq<char>) -> Seq<TagEntryV> {
    let c = key_pos(e, key);
    if c < e.len() && e[c].0 == key {
        e.update(c, (key, add_path(e[c].1, x)))
    } else {
        e.take(c) + seq![(key, seq![x])] + e.skip(c)
    }
}

/// The index that recording the pairs `(tag, path)` one after another gives.
pub open spec fn index_of(pairs: Seq<(Seq<char>, Seq<char>)>) -> Seq<TagEntryV>
    decreases pairs.len(),
{
    if pairs.len() == 0 {
        seq![]
    } else {
        add_tag(index_of(pairs.drop_last()), pairs.last().0, pairs.last().1)
    }
}

/// The pairs one tag of a note gives: each prefix of the trimmed tag with the note's entry page.
pub open spec fn tag_pairs(tag: Seq<char>, path: Seq<char>) -> Seq<(Seq<char>, Seq<char>)> {
    tag_prefixes_of(trim(tag)).map_values(|p: Seq<char>| (p, path))
}

/// The pairs of the first `j` tags of a note.
pub open spec fn note_pairs(n: Node, j: int) -> Seq<(Seq<char>, Seq<char>)>
    decreases j,
{
    if j <= 0 {
        seq![]
    } else {
        note_pairs(n, j - 1) + tag_pairs(n.note.frontmatter.tags@[j - 1]@, n.output_path@)
    }
}

/// The pairs of the first `i` notes.
pub open spec fn nodes_pairs(nodes: Seq<Node>, i: int) -> Seq<(Seq<char>, Seq<char>)>
    decreases i,
{
    if i <= 0 {
        seq![]
    } else {
        nodes_pairs(nodes, i - 1) + note_pairs(nodes[i - 1], nodes[i - 1].note.frontmatter.tags@.len() as int)
    }
}

fn add_path_exec(ps: &mut Vec<String>, x: String)
    ensures
        sv(final(ps)@) == add_path(sv(old(ps)@), x@),
{
    let ghost s = sv(ps@);
    let mut c: usize = 0;
    let ghost xv = x@;
    assert(s.skip(0) =~= s);
    loop
        invariant
            c <= ps@.len(),
            s == sv(ps@),
            xv == x@,
            path_pos(s, xv) == c + path_pos(s.skip(c as int), xv),
        ensures
            c <= ps@.len(),
            s == sv(ps@),
            path_pos(s, xv) == c,
        decreases ps@.len() - c,
    {
        let ghost rest = s.skip(c as int);
        if c >= ps.len() {
            break;
        }
        assert(rest[0] == ps@[c as int]@);
        assert(rest.drop_first() =~= s.skip(c + 1));
        if !path_lt_exec(ps[c].as_str(), x.as_str()) {
            break;
        }
        c = c + 1;
    }
    if c < ps.len() && same_path_exec(ps[c].as_str(), x.as_str()) {
        assert(s[c as int] == ps@[c as int]@);
        return;
    }
    proof {
        if c < ps@.len() {
            assert(s[c as int] == ps@[c as int]@);
        }
    }
    ps.insert(c, x);
    assert(sv(ps@) =~= s.take(c as int) + seq![xv] + s.skip(c as int));
}

/// `x` put among the sorted paths `ps`, unless a path naming the same file is there.
pub fn add_path_pub(ps: &mut Vec<String>, x: String)
    ensures
        sv(final(ps)@) == add_path(sv(old(ps)@), x@),
{
    add_path_exec(ps, x)
}

fn add_tag_exec(e: &mut Vec<(String, Vec<String>)>, key: String, x: String)
    ensures
        entries_view(final(e)@) == add_tag(entries_view(old(e)@), key@, x@),
{
    let ghost s = entries_view(e@);
    let ghost kv = key@;
    let ghost xv = x@;
    let kc = to_chars(key.as_str());
    let mut c: usize = 0;
    assert(s.skip(0) =~= s);
    loop
        invariant
            c <= e@.len(),
            s == entries_view(e@),
            kv == key@,
            kc@ == key@,
            key_pos(s, kv) == c + key_pos(s.skip(c as int), kv),
        ensures
            c <= e@.len(),
            s == entries_view(e@),
            key_pos(s, kv) == c,
        decreases e@.len() - c,
    {
        let ghost rest = s.skip(c as int);
        if c >= e.len() {
            break;
        }
        assert(rest[0] == s[c as int]);
        assert(s[c as int].0 == e@[c as int].0@);
        assert(rest.drop_first() =~= s.skip(c + 1));
        if !text_lt_exec(&to_chars(e[c].0.as_str()), &kc) {
            break;
        }
        c = c + 1;
    }
    if c < e.len() && crate::strs::chars_eq(&to_chars(e[c].0.as_str()), &kc) {
        assert(s[c as int].0 == e@[c as int].0@);
        let mut pair = e.remove(c);
        let ghost before = sv(pair.1@);
        assert(before == s[c as int].1);
        add_path_exec(&mut pair.1, x);
        let ghost pv = (pair.0@, sv(pair.1@));
        e.insert(c, pair);
        assert(entries_view(e@) =~= s.update(c as int, (kv, add_path(s[c as int].1, xv))));
        return;
    }
    proof {
        if c < e@.len() {
            assert(s[c as int].0 == e@[c as int].0@);
        }
    }
    let mut one: Vec<String> = Vec::new();
    one.push(x);
    assert(sv(one@) =~= seq![xv]);
    e.insert(c, (key, one));
    assert(entries_view(e@) =~= s.take(c as int) + seq![(kv, seq![xv])] + s.skip(c as int));
}

fn trimmed(s: &str) -> (r: String)
    ensures
        r@ == trim(s@),
{
    let v = to_chars(s);
    let (a, b) = trim_idx(&v, 0, v.len());
    assert(v@.subrange(0, v@.len() as int) =~= v@);
    from_chars(&slice_copy(&v, a, b))
}

/// Collect the tags of all nodes: for each prefix of a tag (`a`, `a/b`, `a/b/c`
/// for `a/b/c`), the entry pages of the nodes that carry it.
pub fn build_tag_index(nodes: &[Node]) -> (r: TagIndex)
    ensures
        r@ == index_of(nodes_pairs(nodes@, nodes@.len() as int)),
        tag_index_sorted(r@),
{
    let mut entries: Vec<(String, Vec<String>)> = Vec::new();
    let ghost mut acc: Seq<(Seq<char>, Seq<char>)> = seq![];
    let mut i: usize = 0;
    while i < nodes.len()
        invariant
            i <= nodes@.len(),
            acc == nodes_pairs(nodes@, i as int),
            entries_view(entries@) == index_of(acc),
        decreases nodes@.len() - i,
    {
        let n = &nodes[i];
        let tags = &n.note.frontmatter.tags;
        let ghost start = acc;
        let mut j: usize = 0;
        while j < tags.len()
            invariant
                i < nodes@.len(),
                *n == nodes@[i as int],
                *tags == n.note.frontmatter.tags,
                j <= tags@.len(),
                acc == start + note_pairs(*n, j as int),
                entries_view(entries@) == index_of(acc),
            decreases tags@.len() - j,
        {
            let norm = trimmed(tags[j].as_str());
            let pre = tag_prefixes(norm.as_str());
            let ghost tp = tag_pairs(tags@[j as int]@, n.output_path@);
            let ghost mid = acc;
            let mut k: usize = 0;
            while k < pre.len()
                invariant
                    k <= pre@.len(),
                    sv(pre@) == tag_prefixes_of(trim(tags@[j as int]@)),
                    tp == tag_pairs(tags@[j as int]@, n.output_path@),
                    acc == mid + tp.take(k as int),
                    entries_view(entries@) == index_of(acc),
                decreases pre@.len() - k,
            {
                assert(tp[k as int] == (pre@[k as int]@, n.output_path@));
                add_tag_exec(&mut entries, pre[k].clone(), n.output_path.clone());
                proof {
                    let old_acc = acc;
                    acc = acc.push(tp[k as int]);
                    assert(acc.drop_last() =~= old_acc);
                    assert(mid + tp.take(k + 1) =~= acc);
                }
                k = k + 1;
            }
            assert(tp.take(k as int) =~= tp);
            assert(start + note_pairs(*n, j + 1) =~= start + note_pairs(*n, j as int) + tp);
            j = j + 1;
        }
        i = i + 1;
    }
    proof {
        lemma_index_sorted(acc);
    }
    TagIndex { entries }
}

// ---------------------------------------------------------------------------
// The index is sorted
// ---------------------------------------------------------------------------

/// Strictly increasing by path order (so no two paths name one file).
pub open spec fn paths_strict(ps: Seq<Seq<char>>) -> bool {
    forall|a: int, b: int| 0 <= a < b < ps.len() ==> path_lt(#[trigger] ps[a], #[trigger] ps[b])
}

/// Tags strictly increasing, each with a non-empty, strictly increasing list of paths.
pub open spec fn tag_index_sorted(e: Seq<TagEntryV>) -> bool {
    &&& forall|a: int, b: int| 0 <= a < b < e.len() ==> text_lt(#[trigger] e[a].0, #[trigger] e[b].0)
    &&& forall|a: int| 0 <= a < e.len() ==> #[trigger] e[a].1.len() > 0 && paths_strict(e[a].1)
}

proof fn lemma_path_pos(s: Seq<Seq<char>>, t: Seq<char>)
    ensures
        0 <= path_pos(s, t) <= s.len(),
        forall|k: int| 0 <= k < path_pos(s, t) ==> path_lt(#[trigger] s[k], t),
        path_pos(s, t) < s.len() ==> !path_lt(s[path_pos(s, t)], t),
    decreases s.len(),
{
    if s.len() > 0 && path_lt(s[0], t) {
        lemma_path_pos(s.drop_first(), t);
        assert forall|k: int| 0 <= k < path_pos(s, t) implies path_lt(#[trigger] s[k], t) by {
            if k > 0 {
                assert(s[k] == s.drop_first()[k - 1]);
            }
        }
    }
}

proof fn lemma_key_pos(s: Seq<TagEntryV>, t: Seq<char>)
    ensures
        0 <= key_pos(s, t) <= s.len(),
        forall|k: int| 0 <= k < key_pos(s, t) ==> text_lt(#[trigger] s[k].0, t),
        key_pos(s, t) < s.len() ==> !text_lt(s[key_pos(s, t)].0, t),
    decreases s.len(),
{
    if s.len() > 0 && text_lt(s[0].0, t) {
        lemma_key_pos(s.drop_first(), t);
        assert forall|k: int| 0 <= k < key_pos(s, t) implies text_lt(#[trigger] s[k].0, t) by {
            if k > 0 {
                assert(s[k] == s.drop_first()[k - 1]);
            }
        }
    }
}

proof fn lemma_add_path_strict(s: Seq<Seq<char>>, x: Seq<char>)
    requires
        paths_strict(s),
    ensures
        paths_strict(add_path(s, x)),
        add_path(s, x).len() > 0,
{
    lemma_path_pos(s, x);
    let c = path_pos(s, x);
    if c < s.len() && same_path(s[c], x) {
        return;
    }
    let r = add_path(s, x);
    assert forall|i: int, j: int| 0 <= i < j < r.len() implies path_lt(#[trigger] r[i], #[trigger] r[j]) by {
        if j < c {
            assert(r[i] == s[i] && r[j] == s[j]);
        } else if j == c {
            assert(r[i] == s[i]);
        } else if i < c {
            assert(r[i] == s[i] && r[j] == s[j - 1]);
            crate::order::lemma_path_trichotomy(s[c], x);
            crate::order::lemma_path_lt_trans(s[i], x, s[c]);
            if j - 1 > c {
                crate::order::lemma_path_lt_trans(s[i], s[c], s[j - 1]);
            }
        } else if i == c {
            assert(r[j] == s[j - 1]);
            crate::order::lemma_path_trichotomy(s[c], x);
            if j - 1 > c {
                crate::order::lemma_path_lt_trans(x, s[c], s[j - 1]);
            }
        } else {
            assert(r[i] == s[i - 1] && r[j] == s[j - 1]);
        }
    }
}

proof fn lemma_add_tag_sorted(e: Seq<TagEntryV>, key: Seq<char>, x: Seq<char>)
    requires
        tag_index_sorted(e),
    ensures
        tag_index_sorted(add_tag(e, key, x)),
{
    lemma_key_pos(e, key);
    let c = key_pos(e, key);
    let r = add_tag(e, key, x);
    if c < e.len() && e[c].0 == key {
        lemma_add_path_strict(e[c].1, x);
        assert forall|a: int, b: int| 0 <= a < b < r.len() implies text_lt(#[trigger] r[a].0, #[trigger] r[b].0) by {
            assert(r[a].0 == e[a].0 && r[b].0 == e[b].0);
        }
        assert forall|a: int| 0 <= a < r.len() implies #[trigger] r[a].1.len() > 0 && paths_strict(r[a].1) by {
            if a != c {
                assert(r[a] == e[a]);
            }
        }
    } else {
        assert(paths_strict(seq![x]));
        assert forall|a: int, b: int| 0 <= a < b < r.len() implies text_lt(#[trigger] r[a].0, #[trigger] r[b].0) by {
            if b < c {
                assert(r[a] == e[a] && r[b] == e[b]);
            } else if b == c {
                assert(r[a] == e[a]);
            } else if a < c {
                assert(r[a] == e[a] && r[b] == e[b - 1]);
                crate::order::lemma_text_lt_total(e[c].0, key);
                crate::order::lemma_text_lt_trans(e[a].0, key, e[c].0);
                if b - 1 > c {
                    crate::order::lemma_text_lt_trans(e[a].0, e[c].0, e[b - 1].0);
                }
            } else if a == c {
                assert(r[b] == e[b - 1]);
                crate::order::lemma_text_lt_total(e[c].0, key);
                if b - 1 > c {
                    crate::order::lemma_text_lt_trans(key, e[c].0, e[b - 1].0);
                }
            } else {
                assert(r[a] == e[a - 1] && r[b] == e[b - 1]);
            }
        }
        assert forall|a: int| 0 <= a < r.len() implies #[trigger] r[a].1.len() > 0 && paths_strict(r[a].1) by {
            if a < c {
                assert(r[a] == e[a]);
            } else if a > c {
                assert(r[a] == e[a - 1]);
            }
        }
    }
}

/// Whatever pairs are recorded, the index lists its tags in strictly
/// increasing order, and under each tag a non-empty list of paths in strictly
/// increasing path order, so that no two of them name the same file.
pub proof fn lemma_index_sorted(pairs: Seq<(Seq<char>, Seq<char>)>)
    ensures
        tag_index_sorted(index_of(pairs)),
    decreases pairs.len(),
{
    if pairs.len() > 0 {
        lemma_index_sorted(pairs.drop_last());
        lemma_add_tag_sorted(index_of(pairs.drop_last()), pairs.last().0, pairs.last().1);
    }
}

// ---------------------------------------------------------------------------
// Pages
// ---------------------------------------------------------------------------

/// The line of one tag on `tags/index.md`.
pub open spec fn tag_index_line(ent: TagEntryV) -> Seq<char> {
    "- [`"@ + ent.0 + "`]("@ + relative("tags/index.md"@, tag_path_of(ent.0)) + ") ("@ + decimal(ent.1.len()) + " 件)\n"@
}

/// The lines of the first `k` tags.
pub open spec fn tag_index_lines(e: Seq<TagEntryV>, k: int) -> Seq<char>
    decreases k,
{
    if k <= 0 {
        seq![]
    } else {
        tag_index_lines(e, k - 1) + tag_index_line(e[k - 1])
    }
}

/// The text of `tags/index.md`.
pub open spec fn tag_index_text(e: Seq<TagEntryV>) -> Seq<char> {
    "# Tags\n"@ + "\n"@ + if e.len() == 0 { "_(no tags)_\n"@ } else { tag_index_lines(e, e.len() as int) }
}

/// Every tag of the index has a segment.
pub open spec fn tags_named(e: Seq<TagEntryV>) -> bool {
    forall|a: int| 0 <= a < e.len() ==> #[trigger] tag_parts(e[a].0).len() > 0
}

/// The body of `tags/index.md`, the page listing every tag.
pub fn render_tag_index_page(tag_index: &TagIndex) -> (r: String)
    requires
        tags_named(tag_index@),
    ensures
        r@ == tag_index_text(tag_index@),
{
    let ghost e = tag_index@;
    let mut s = String::from_str("# Tags\n");
    s.append("\n");
    if tag_index.entries.len() == 0 {
        s.append("_(no tags)_\n");
        return s;
    }
    let ghost head = s@;
    let mut k: usize = 0;
    while k < tag_index.entries.len()
        invariant
            k <= tag_index.entries@.len(),
            e == tag_index@,
            tags_named(e),
            s@ == head + tag_index_lines(e, k as int),
        decreases tag_index.entries@.len() - k,
    {
        let ent = &tag_index.entries[k];
        assert(e[k as int] == (ent.0@, sv(ent.1@)));
        assert(tag_parts(e[k as int].0).len() > 0);
        let page = tag_page_path(ent.0.as_str());
        let link = relative_link("tags/index.md", page.as_str());
        s.append("- [`");
        s.append(ent.0.as_str());
        s.append("`](");
        s.append(link.as_str());
        s.append(") (");
        s.append(from_chars(&decimal_chars(ent.1.len())).as_str());
        s.append(" 件)\n");
        assert(s@ =~= head + tag_index_lines(e, k + 1));
        k = k + 1;
    }
    s
}

/// The title shown for the note page `p`: the title of the first note whose
/// entry page names the same file, else the path itself.
pub open spec fn title_for(nodes: Seq<Node>, p: Seq<char>) -> Seq<char>
    decreases nodes.len(),
{
    if nodes.len() == 0 {
        p
    } else if same_path(nodes[0].output_path@, p) {
        nodes[0].title@
    } else {
        title_for(nodes.drop_first(), p)
    }
}

/// The lines of the first `k` note paths on a tag page.
pub open spec fn tag_page_lines(tag: Seq<char>, ps: Seq<Seq<char>>, nodes: Seq<Node>, k: int) -> Seq<char>
    decreases k,
{
    if k <= 0 {
        seq![]
    } else {
        tag_page_lines(tag, ps, nodes, k - 1) + "- ["@ + title_for(nodes, ps[k - 1]) + "]("@
            + relative(tag_path_of(tag), ps[k - 1]) + ")\n"@
    }
}

/// The text of the page of one tag.
pub open spec fn tag_page_text(tag: Seq<char>, ps: Seq<Seq<char>>, nodes: Seq<Node>) -> Seq<char> {
    "# Tag: `"@ + tag + "`\n"@ + "\n"@ + if ps.len() == 0 { "_(no entries)_\n"@ } else { tag_page_lines(tag, ps, nodes, ps.len() as int) }
}

fn title_for_exec(nodes: &[Node], p: &str) -> (r: String)
    ensures
        r@ == title_for(nodes@, p@),
{
    let mut i: usize = 0;
    assert(nodes@.skip(0) =~= nodes@);
    while i < nodes.len()
        invariant
            i <= nodes@.len(),
            title_for(nodes@, p@) == title_for(nodes@.skip(i as int), p@),
        decreases nodes@.len() - i,
    {
        let ghost rest = nodes@.skip(i as int);
        assert(rest[0] == nodes@[i as int]);
        assert(rest.drop_first() =~= nodes@.skip(i + 1));
        if same_path_exec(nodes[i].output_path.as_str(), p) {
            return nodes[i].title.clone();
        }
        i = i + 1;
    }
    assert(nodes@.skip(i as int) =~= Seq::<Node>::empty());
    String::from_str(p)
}

/// The page of one tag: a line per note carrying it.
pub fn render_tag_page(tag: &str, node_paths: &[String], nodes: &[Node]) -> (r: String)
    requires
        node_paths@.len() > 0 ==> tag_parts(tag@).len() > 0,
    ensures
        r@ == tag_page_text(tag@, sv(node_paths@), nodes@),
{
    let ghost ps = sv(node_paths@);
    let mut s = String::from_str("# Tag: `");
    s.append(tag);
    s.append("`\n");
    s.append("\n");
    if node_paths.len() == 0 {
        s.append("_(no entries)_\n");
        return s;
    }
    let from = tag_page_path(tag);
    let ghost head = s@;
    let mut k: usize = 0;
    while k < node_paths.len()
        invariant
            k <= node_paths@.len(),
            ps == sv(node_paths@),
            from@ == tag_path_of(tag@),
            s@ == head + tag_page_lines(tag@, ps, nodes@, k as int),
        decreases node_paths@.len() - k,
    {
        let p = &node_paths[k];
        assert(ps[k as int] == p@);
        let title = title_for_exec(nodes, p.as_str());
        let link = relative_link(from.as_str(), p.as_str());
        s.append("- [");
        s.append(title.as_str());
        s.append("](");
        s.append(link.as_str());
        s.append(")\n");
        assert(s@ =~= head + tag_page_lines(tag@, ps, nodes@, k + 1));
        k = k + 1;
    }
    s
}

// ---------------------------------------------------------------------------
// Every tag of the index has a segment
// ---------------------------------------------------------------------------

/// A text with a character other than `/` has a segment.
proof fn lemma_named_if_not_all_slash(s: Seq<char>, i: int)
    requires
        0 <= i < s.len(),
        s[i] != '/',
    ensures
        keep_nonempty(split_on(s, '/')).len() > 0,
    decreases s.len(),
{
    crate::strs::lemma_first_index_bounds(s, '/');
    let j = first_index_of(s, '/');
    if j >= s.len() {
        assert(split_on(s, '/') == seq![s]);
    } else {
        let ps = split_on(s, '/');
        assert(ps == seq![s.take(j)] + split_on(s.skip(j + 1), '/'));
        assert(ps[0] == s.take(j));
        assert(ps.drop_first() =~= split_on(s.skip(j + 1), '/'));
        if i < j {
            assert(s.take(j).len() > 0);
        } else {
            assert(i != j);
            assert(s.skip(j + 1)[i - j - 1] == s[i]);
            lemma_named_if_not_all_slash(s.skip(j + 1), i - j - 1);
            if ps[0].len() > 0 {
            } else {
                assert(keep_nonempty(ps) == keep_nonempty(ps.drop_first()));
            }
        }
    }
}

/// The segments of a tag hold no `/`.
proof fn lemma_parts_no_slash(s: Seq<char>)
    ensures
        forall|a: int, b: int| 0 <= a < split_on(s, '/').len() && 0 <= b < split_on(s, '/')[a].len()
            ==> split_on(s, '/')[a][b] != '/',
    decreases s.len(),
{
    crate::strs::lemma_first_index_bounds(s, '/');
    let j = first_index_of(s, '/');
    if j < s.len() {
        lemma_parts_no_slash(s.skip(j + 1));
        let ps = split_on(s, '/');
        assert forall|a: int, b: int| 0 <= a < ps.len() && 0 <= b < ps[a].len() implies ps[a][b] != '/' by {
            if a > 0 {
                assert(ps[a] == split_on(s.skip(j + 1), '/')[a - 1]);
            } else {
                assert(ps[0] == s.take(j));
            }
        }
    }
}

proof fn lemma_keep_nonempty_parts(ps: Seq<Seq<char>>)
    ensures
        forall|a: int| 0 <= a < keep_nonempty(ps).len() ==> #[trigger] keep_nonempty(ps)[a].len() > 0
            && ps.contains(keep_nonempty(ps)[a]),
    decreases ps.len(),
{
    if ps.len() > 0 {
        lemma_keep_nonempty_parts(ps.drop_first());
        let k = keep_nonempty(ps);
        assert forall|a: int| 0 <= a < k.len() implies #[trigger] k[a].len() > 0 && ps.contains(k[a]) by {
            if ps[0].len() > 0 {
                if a == 0 {
                    assert(ps[0] == k[0]);
                } else {
                    assert(k[a] == keep_nonempty(ps.drop_first())[a - 1]);
                    let m = choose|m: int| 0 <= m < ps.drop_first().len() && ps.drop_first()[m] == k[a];
                    assert(ps[m + 1] == k[a]);
                }
            } else {
                let m = choose|m: int| 0 <= m < ps.drop_first().len() && ps.drop_first()[m] == k[a];
                assert(ps[m + 1] == k[a]);
            }
        }
    }
}

/// A join of pieces starts with its first piece.
proof fn lemma_join_starts(q: Seq<Seq<char>>, sep: Seq<char>)
    requires
        q.len() >= 1,
    ensures
        join(q, sep).len() >= q[0].len(),
        join(q, sep).take(q[0].len() as int) == q[0],
    decreases q.len(),
{
    if q.len() > 1 {
        lemma_join_starts(q.drop_last(), sep);
        let j = join(q.drop_last(), sep);
        assert(join(q, sep) == j + sep + q.last());
        assert((j + sep + q.last()).take(q[0].len() as int) =~= j.take(q[0].len() as int));
    } else {
        assert(join(q, sep) == q[0]);
        assert(q[0].take(q[0].len() as int) =~= q[0]);
    }
}

/// Every prefix of a tag has a segment.
proof fn lemma_prefixes_named(t: Seq<char>)
    ensures
        forall|k: int| 0 <= k < tag_prefixes_of(t).len() ==> #[trigger] tag_parts(tag_prefixes_of(t)[k]).len() > 0,
{
    let parts = tag_parts(t);
    lemma_keep_nonempty_parts(split_on(t, '/'));
    lemma_parts_no_slash(t);
    assert forall|k: int| 0 <= k < tag_prefixes_of(t).len() implies #[trigger] tag_parts(tag_prefixes_of(t)[k]).len() > 0 by {
        let q = parts.take(k + 1);
        let x = join(q, seq!['/']);
        assert(tag_prefixes_of(t)[k] == x);
        lemma_join_starts(q, seq!['/']);
        assert(q[0] == parts[0]);
        assert(parts[0].len() > 0);
        let m = choose|m: int| 0 <= m < split_on(t, '/').len() && split_on(t, '/')[m] == parts[0];
        assert(parts[0][0] != '/');
        assert(x[0] == x.take(q[0].len() as int)[0]);
        lemma_named_if_not_all_slash(x, 0);
    }
}

/// The tags of an index built from pairs are among the pairs' tags.
proof fn lemma_index_keys(pairs: Seq<(Seq<char>, Seq<char>)>)
    ensures
        forall|a: int| 0 <= a < index_of(pairs).len() ==> exists|m: int| 0 <= m < pairs.len() && #[trigger] index_of(pairs)[a].0 == pairs[m].0,
    decreases pairs.len(),
{
    if pairs.len() > 0 {
        let pre = pairs.drop_last();
        lemma_index_keys(pre);
        let e = index_of(pre);
        let key = pairs.last().0;
        let c = key_pos(e, key);
        lemma_key_pos_bounds(e, key);
        let r = index_of(pairs);
        assert forall|a: int| 0 <= a < r.len() implies exists|m: int| 0 <= m < pairs.len() && #[trigger] r[a].0 == pairs[m].0 by {
            if c < e.len() && e[c].0 == key {
                if a == c {
                    assert(r[a].0 == pairs[pairs.len() - 1].0);
                } else {
                    assert(r[a] == e[a]);
                    let m = choose|m: int| 0 <= m < pre.len() && e[a].0 == pre[m].0;
                    assert(pairs[m] == pre[m]);
                }
            } else {
                if a < c {
                    assert(r[a] == e[a]);
                    let m = choose|m: int| 0 <= m < pre.len() && e[a].0 == pre[m].0;
                    assert(pairs[m] == pre[m]);
                } else if a == c {
                    assert(r[a].0 == pairs[pairs.len() - 1].0);
                } else {
                    assert(r[a] == e[a - 1]);
                    let m = choose|m: int| 0 <= m < pre.len() && e[a - 1].0 == pre[m].0;
                    assert(pairs[m] == pre[m]);
                }
            }
        }
    }
}

proof fn lemma_key_pos_bounds(e: Seq<TagEntryV>, key: Seq<char>)
    ensures
        0 <= key_pos(e, key) <= e.len(),
    decreases e.len(),
{
    if e.len() > 0 && text_lt(e[0].0, key) {
        lemma_key_pos_bounds(e.drop_first(), key);
    }
}

/// The tags the pairs of notes give all have a segment.
proof fn lemma_pairs_named(nodes: Seq<Node>, i: int)
    requires
        0 <= i <= nodes.len(),
    ensures
        forall|m: int| 0 <= m < nodes_pairs(nodes, i).len() ==> #[trigger] tag_parts(nodes_pairs(nodes, i)[m].0).len() > 0,
    decreases i,
{
    if i > 0 {
        lemma_pairs_named(nodes, i - 1);
        let n = nodes[i - 1];
        lemma_note_pairs_named(n, n.note.frontmatter.tags@.len() as int);
        let a = nodes_pairs(nodes, i - 1);
        let b = note_pairs(n, n.note.frontmatter.tags@.len() as int);
        assert forall|m: int| 0 <= m < (a + b).len() implies #[trigger] tag_parts((a + b)[m].0).len() > 0 by {
            if m < a.len() {
                assert((a + b)[m] == a[m]);
            } else {
                assert((a + b)[m] == b[m - a.len()]);
            }
        }
    }
}

proof fn lemma_note_pairs_named(n: Node, j: int)
    requires
        0 <= j <= n.note.frontmatter.tags@.len(),
    ensures
        forall|m: int| 0 <= m < note_pairs(n, j).len() ==> #[trigger] tag_parts(note_pairs(n, j)[m].0).len() > 0,
    decreases j,
{
    if j > 0 {
        lemma_note_pairs_named(n, j - 1);
        let t = n.note.frontmatter.tags@[j - 1]@;
        lemma_prefixes_named(trim(t));
        let a = note_pairs(n, j - 1);
        let b = tag_pairs(t, n.output_path@);
        assert forall|m: int| 0 <= m < (a + b).len() implies #[trigger] tag_parts((a + b)[m].0).len() > 0 by {
            if m < a.len() {
                assert((a + b)[m] == a[m]);
            } else {
                assert((a + b)[m].0 == tag_prefixes_of(trim(t))[m - a.len()]);
            }
        }
    }
}

/// Law: every tag of the index built from the nodes has a segment, so each
/// tag has a page.
pub proof fn lemma_built_index_named(nodes: Seq<Node>)
    ensures
        tags_named(index_of(nodes_pairs(nodes, nodes.len() as int))),
{
    let pairs = nodes_pairs(nodes, nodes.len() as int);
    lemma_pairs_named(nodes, nodes.len() as int);
    lemma_index_keys(pairs);
    let e = index_of(pairs);
    assert forall|a: int| 0 <= a < e.len() implies #[trigger] tag_parts(e[a].0).len() > 0 by {
        let m = choose|m: int| 0 <= m < pairs.len() && e[a].0 == pairs[m].0;
    }
}

} // verus!
