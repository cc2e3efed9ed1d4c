//! Resolving wikilink targets to pages.
//!
//! A name resolves first through the notes' aliases and titles, then through
//! the file stems of their sources. Among several candidates, one in the
//! directory of the referring page wins; otherwise the one with the fewest
//! components, then the least path.
use vstd::prelude::*;
use crate::fragment::{Fragment, FragmentModel, fragments_view};
use crate::model::Node;
use crate::order::{
    lemma_path_lt_asym, lemma_path_lt_same, lemma_path_lt_trans, lemma_path_trichotomy,
    lemma_text_lt_irrefl, lemma_text_lt_total, lemma_text_lt_trans, path_lt, path_lt_exec,
    same_path, same_path_exec, text_lt, text_lt_exec, Keyed,
};
use crate::paths::{
    components, components_exec, fragment_leaf_path, index_md, join2, md_ext, parent_dir,
    parent_dir_exec, shell_index_path, stem, stem_exec,
};
use crate::strs::{chars_eq, from_chars, push_string, sv, to_chars, vv};
use crate::link::slug::{slug_of, slugify};

verus! {

/// What the resolver knows of one note.
#[derive(Debug)]
pub struct ResolveTarget {
    /// The note's entry page.
    pub path: String,
    /// The file stem of the note's source, when it has a file name.
    pub stem: Option<String>,
    /// Aliases, then the front matter title.
    pub names: Vec<String>,
    /// Each h2 fragment's slug and page (the shell page for a shell).
    pub sections: Vec<(String, String)>,
}

/// The index that wikilinks are resolved against.
#[derive(Debug, Default)]
pub struct Resolver {
    pub targets: Vec<ResolveTarget>,
}

pub type TargetV = (Seq<char>, Option<Seq<char>>, Seq<Seq<char>>, Seq<(Seq<char>, Seq<char>)>);

pub open spec fn opt_str(o: Option<String>) -> Option<Seq<char>> {
    match o {
        Some(s) => Some(s@),
        None => None,
    }
}

pub open spec fn pairs_view(v: Seq<(String, String)>) -> Seq<(Seq<char>, Seq<char>)> {
    v.map_values(|p: (String, String)| (p.0@, p.1@))
}

impl View for ResolveTarget {
    type V = TargetV;

    open spec fn view(&self) -> TargetV {
        (self.path@, opt_str(self.stem), sv(self.names@), pairs_view(self.sections@))
    }
}

pub open spec fn targets_view(v: Seq<ResolveTarget>) -> Seq<TargetV> {
    v.map_values(|t: ResolveTarget| t@)
}

impl View for Resolver {
    type V = Seq<TargetV>;

    open spec fn view(&self) -> Seq<TargetV> {
        targets_view(self.targets@)
    }
}

/// `Path::file_stem` of a path.
pub open spec fn file_stem(p: Seq<char>) -> Option<Seq<char>> {
    let cs = components(p);
    if cs.len() == 0 {
        None
    } else {
        Some(stem(cs.last()))
    }
}

/// The page of an h2 fragment of a note whose entry directory is `dir`.
pub open spec fn section_page(dir: Seq<char>, f: FragmentModel) -> (Seq<char>, Seq<char>) {
    match f {
        FragmentModel::H2 { slug, .. } => (slug, join2(dir, slug + md_ext())),
        FragmentModel::Shell { slug, .. } => (slug, join2(join2(dir, slug), index_md())),
    }
}

/// What the resolver keeps of a node.
pub open spec fn target_of(n: Node) -> TargetV {
    (
        n.output_path@,
        file_stem(n.note.source_file@),
        sv(n.note.frontmatter.aliases@) + match n.note.frontmatter.title {
            Some(t) => seq![t@],
            None => Seq::<Seq<char>>::empty(),
        },
        fragments_view(n.fragments.fragments@).map_values(|f: FragmentModel| section_page(n.entry_dir@, f)),
    )
}

/// Entry pages of the targets that carry `name` as alias or title, in order.
pub open spec fn alias_candidates(ts: Seq<TargetV>, name: Seq<char>) -> Seq<Seq<char>>
    decreases ts.len(),
{
    if ts.len() == 0 {
        seq![]
    } else if ts[0].2.contains(name) {
        seq![ts[0].0] + alias_candidates(ts.drop_first(), name)
    } else {
        alias_candidates(ts.drop_first(), name)
    }
}

/// Entry pages of the targets whose source stem is `name`, in order.
pub open spec fn stem_candidates(ts: Seq<TargetV>, name: Seq<char>) -> Seq<Seq<char>>
    decreases ts.len(),
{
    if ts.len() == 0 {
        seq![]
    } else if ts[0].1 == Some(name) {
        seq![ts[0].0] + stem_candidates(ts.drop_first(), name)
    } else {
        stem_candidates(ts.drop_first(), name)
    }
}

/// `q` ranks before `p`: fewer components, or as many and a lesser path.
pub open spec fn ranks_before(q: Seq<char>, p: Seq<char>) -> bool {
    components(q).len() < components(p).len()
        || (components(q).len() == components(p).len() && path_lt(q, p))
}

/// The first path of `ps` that no path ranks before.
pub open spec fn best_ranked(ps: Seq<Seq<char>>) -> Seq<char>
    decreases ps.len(),
{
    if ps.len() <= 1 {
        ps[0]
    } else {
        let b = best_ranked(ps.drop_last());
        if ranks_before(ps.last(), b) {
            ps.last()
        } else {
            b
        }
    }
}

/// Index of the first path whose directory is that of `from` (`ps.len()` if none).
pub open spec fn first_same_dir(ps: Seq<Seq<char>>, from: Seq<char>) -> int
    decreases ps.len(),
{
    if ps.len() == 0 {
        0
    } else if parent_dir(ps[0]) == parent_dir(from) {
        0
    } else {
        1 + first_same_dir(ps.drop_first(), from)
    }
}

pub proof fn lemma_first_same_dir(ps: Seq<Seq<char>>, from: Seq<char>)
    ensures
        0 <= first_same_dir(ps, from) <= ps.len(),
        first_same_dir(ps, from) < ps.len() ==> parent_dir(ps[first_same_dir(ps, from)]) == parent_dir(from),
        forall|k: int| 0 <= k < first_same_dir(ps, from) ==> parent_dir(#[trigger] ps[k]) != parent_dir(from),
    decreases ps.len(),
{
    if ps.len() > 0 && parent_dir(ps[0]) != parent_dir(from) {
        lemma_first_same_dir(ps.drop_first(), from);
        assert forall|k: int| 0 <= k < first_same_dir(ps, from) implies parent_dir(#[trigger] ps[k]) != parent_dir(from) by {
            if k > 0 {
                assert(ps[k] == ps.drop_first()[k - 1]);
            }
        }
    }
}

/// The candidate chosen for a link from the page `from`.
pub open spec fn pick_best_spec(ps: Seq<Seq<char>>, from: Seq<char>) -> Option<Seq<char>> {
    if ps.len() == 0 {
        None
    } else if ps.len() == 1 {
        Some(ps[0])
    } else if first_same_dir(ps, from) < ps.len() {
        Some(ps[first_same_dir(ps, from)])
    } else {
        Some(best_ranked(ps))
    }
}

/// The entry page a name resolves to.
pub open spec fn resolve_spec(ts: Seq<TargetV>, name: Seq<char>, from: Seq<char>) -> Option<Seq<char>> {
    match pick_best_spec(alias_candidates(ts, name), from) {
        Some(p) => Some(p),
        None => pick_best_spec(stem_candidates(ts, name), from),
    }
}

proof fn lemma_best_ranked_in(ps: Seq<Seq<char>>)
    requires
        ps.len() > 0,
    ensures
        ps.contains(best_ranked(ps)),
    decreases ps.len(),
{
    if ps.len() > 1 {
        lemma_best_ranked_in(ps.drop_last());
        let b = best_ranked(ps.drop_last());
        let k = choose|k: int| 0 <= k < ps.drop_last().len() && ps.drop_last()[k] == b;
        assert(ps[k] == b);
        assert(ps[ps.len() - 1] == ps.last());
    } else {
        assert(ps[0] == best_ranked(ps));
    }
}

proof fn lemma_alias_single(ts: Seq<TargetV>, name: Seq<char>, i: int)
    requires
        0 <= i < ts.len(),
        ts[i].2.contains(name),
        forall|j: int| 0 <= j < ts.len() && j != i ==> !(#[trigger] ts[j]).2.contains(name),
    ensures
        alias_candidates(ts, name) == seq![ts[i].0],
    decreases ts.len(),
{
    if i == 0 {
        lemma_alias_none(ts.drop_first(), name);
        assert(seq![ts[0].0] + Seq::<Seq<char>>::empty() =~= seq![ts[0].0]);
    } else {
        assert(!ts[0].2.contains(name));
        assert forall|j: int| 0 <= j < ts.drop_first().len() && j != i - 1 implies !(#[trigger] ts.drop_first()[j]).2.contains(name) by {
            assert(ts.drop_first()[j] == ts[j + 1]);
        }
        lemma_alias_single(ts.drop_first(), name, i - 1);
    }
}

proof fn lemma_alias_none(ts: Seq<TargetV>, name: Seq<char>)
    requires
        forall|j: int| 0 <= j < ts.len() ==> !(#[trigger] ts[j]).2.contains(name),
    ensures
        alias_candidates(ts, name) == Seq::<Seq<char>>::empty(),
    decreases ts.len(),
{
    if ts.len() > 0 {
        assert forall|j: int| 0 <= j < ts.drop_first().len() implies !(#[trigger] ts.drop_first()[j]).2.contains(name) by {
            assert(ts.drop_first()[j] == ts[j + 1]);
        }
        lemma_alias_none(ts.drop_first(), name);
    }
}

/// Law: aliases and titles win over file names. Where some note carries
/// `name` as an alias or title, a link to `name` resolves to the entry page
/// of one such note, from any page; where exactly one note does, to that
/// note's entry page, whatever file names the other notes have.
pub proof fn lemma_alias_wins(ts: Seq<TargetV>, name: Seq<char>, from: Seq<char>)
    ensures
        alias_candidates(ts, name).len() > 0 ==>
            (resolve_spec(ts, name, from) matches Some(p) && alias_candidates(ts, name).contains(p)),
        forall|i: int| 0 <= i < ts.len() && (#[trigger] ts[i]).2.contains(name)
            && (forall|j: int| 0 <= j < ts.len() && j != i ==> !(#[trigger] ts[j]).2.contains(name))
            ==> resolve_spec(ts, name, from) == Some(ts[i].0),
{
    let ps = alias_candidates(ts, name);
    if ps.len() > 0 {
        lemma_first_same_dir(ps, from);
        if ps.len() > 1 && first_same_dir(ps, from) >= ps.len() {
            lemma_best_ranked_in(ps);
        }
        if ps.len() == 1 {
            assert(ps.contains(ps[0]));
        } else if first_same_dir(ps, from) < ps.len() {
            assert(ps.contains(ps[first_same_dir(ps, from)]));
        }
    }
    assert forall|i: int| 0 <= i < ts.len() && (#[trigger] ts[i]).2.contains(name)
        && (forall|j: int| 0 <= j < ts.len() && j != i ==> !(#[trigger] ts[j]).2.contains(name))
        implies resolve_spec(ts, name, from) == Some(ts[i].0) by {
        lemma_alias_single(ts, name, i);
    }
}

proof fn lemma_ranks_trans(a: Seq<char>, b: Seq<char>, c: Seq<char>)
    requires
        ranks_before(a, b),
        ranks_before(b, c),
    ensures
        ranks_before(a, c),
{
    if components(a).len() == components(b).len() && components(b).len() == components(c).len() {
        crate::order::lemma_path_lt_trans(a, b, c);
    }
}

proof fn lemma_best_ranked_least(ps: Seq<Seq<char>>)
    requires
        ps.len() > 0,
    ensures
        ps.contains(best_ranked(ps)),
        forall|k: int| 0 <= k < ps.len() ==> !ranks_before(#[trigger] ps[k], best_ranked(ps)),
    decreases ps.len(),
{
    lemma_best_ranked_in(ps);
    if ps.len() == 1 {
        crate::order::lemma_path_lt_irrefl(ps[0]);
    } else {
        let pre = ps.drop_last();
        lemma_best_ranked_least(pre);
        let b = best_ranked(pre);
        let l = ps.last();
        if ranks_before(l, b) {
            assert forall|k: int| 0 <= k < ps.len() implies !ranks_before(#[trigger] ps[k], l) by {
                if k < ps.len() - 1 {
                    assert(ps[k] == pre[k]);
                    if ranks_before(ps[k], l) {
                        lemma_ranks_trans(ps[k], l, b);
                    }
                } else {
                    crate::order::lemma_path_lt_irrefl(l);
                }
            }
        } else {
            assert forall|k: int| 0 <= k < ps.len() implies !ranks_before(#[trigger] ps[k], b) by {
                if k < ps.len() - 1 {
                    assert(ps[k] == pre[k]);
                }
            }
        }
    }
}

/// Law: where no candidate lies in the directory of the linking page, the
/// candidate chosen is one of them, has the fewest path components of all,
/// and among those with that many it is the least path: no candidate has
/// fewer components, and none with as many is a lesser path. So the choice
/// does not depend on the order of the candidates.
pub proof fn lemma_pick_least(ps: Seq<Seq<char>>, from: Seq<char>)
    requires
        ps.len() > 0,
        forall|k: int| 0 <= k < ps.len() ==> parent_dir(#[trigger] ps[k]) != parent_dir(from),
    ensures
        pick_best_spec(ps, from) matches Some(r) && ps.contains(r)
            && forall|k: int| 0 <= k < ps.len() ==> components(r).len() <= components(#[trigger] ps[k]).len()
                && (components(r).len() == components(ps[k]).len() ==> !crate::order::path_lt(ps[k], r)),
{
    lemma_first_same_dir(ps, from);
    lemma_best_ranked_least(ps);
    if first_same_dir(ps, from) < ps.len() {
        assert(parent_dir(ps[first_same_dir(ps, from)]) == parent_dir(from));
    }
    if ps.len() == 1 {
        assert(best_ranked(ps) == ps[0]);
    }
}

/// A note carries `name` as an alias or title.
pub open spec fn aliased(t: TargetV, name: Seq<char>) -> bool {
    t.2.contains(name)
}

proof fn lemma_alias_from(ts: Seq<TargetV>, name: Seq<char>)
    ensures
        forall|k: int| 0 <= k < alias_candidates(ts, name).len() ==> exists|i: int|
            0 <= i < ts.len() && #[trigger] ts[i].0 == #[trigger] alias_candidates(ts, name)[k] && aliased(ts[i], name),
    decreases ts.len(),
{
    if ts.len() > 0 {
        let t = ts.drop_first();
        lemma_alias_from(t, name);
        let a = alias_candidates(ts, name);
        let b = alias_candidates(t, name);
        assert forall|k: int| 0 <= k < a.len() implies exists|i: int|
            0 <= i < ts.len() && #[trigger] ts[i].0 == #[trigger] a[k] && aliased(ts[i], name) by {
            if aliased(ts[0], name) {
                assert(a == seq![ts[0].0] + b);
                if k == 0 {
                    assert(ts[0].0 == a[0]);
                } else {
                    assert(a[k] == b[k - 1]);
                    let i = choose|i: int| 0 <= i < t.len() && #[trigger] t[i].0 == #[trigger] b[k - 1] && aliased(t[i], name);
                    assert(ts[i + 1] == t[i]);
                }
            } else {
                assert(a == b);
                assert(a[k] == b[k]);
                let i = choose|i: int| 0 <= i < t.len() && #[trigger] t[i].0 == #[trigger] b[k] && aliased(t[i], name);
                assert(ts[i + 1] == t[i]);
            }
        }
    }
}

proof fn lemma_stem_from(ts: Seq<TargetV>, name: Seq<char>)
    ensures
        forall|k: int| 0 <= k < stem_candidates(ts, name).len() ==> exists|i: int|
            0 <= i < ts.len() && #[trigger] ts[i].0 == #[trigger] stem_candidates(ts, name)[k] && ts[i].1 == Some(name),
    decreases ts.len(),
{
    if ts.len() > 0 {
        let t = ts.drop_first();
        lemma_stem_from(t, name);
        let a = stem_candidates(ts, name);
        let b = stem_candidates(t, name);
        assert forall|k: int| 0 <= k < a.len() implies exists|i: int|
            0 <= i < ts.len() && #[trigger] ts[i].0 == #[trigger] a[k] && ts[i].1 == Some(name) by {
            if ts[0].1 == Some(name) {
                assert(a == seq![ts[0].0] + b);
                if k == 0 {
                    assert(ts[0].0 == a[0]);
                } else {
                    assert(a[k] == b[k - 1]);
                    let i = choose|i: int| 0 <= i < t.len() && #[trigger] t[i].0 == #[trigger] b[k - 1] && t[i].1 == Some(name);
                    assert(ts[i + 1] == t[i]);
                }
            } else {
                assert(a == b);
                assert(a[k] == b[k]);
                let i = choose|i: int| 0 <= i < t.len() && #[trigger] t[i].0 == #[trigger] b[k] && t[i].1 == Some(name);
                assert(ts[i + 1] == t[i]);
            }
        }
    }
}

proof fn lemma_pick_in(ps: Seq<Seq<char>>, from: Seq<char>)
    ensures
        pick_best_spec(ps, from) matches Some(r) ==> ps.contains(r),
        ps.len() > 0 ==> pick_best_spec(ps, from) is Some,
{
    if ps.len() > 0 {
        lemma_first_same_dir(ps, from);
        lemma_best_ranked_in(ps);
        if ps.len() == 1 {
            assert(ps.contains(ps[0]));
        } else if first_same_dir(ps, from) < ps.len() {
            assert(ps.contains(ps[first_same_dir(ps, from)]));
        }
    }
}

/// A note carries `name`: as an alias or title, or as its file stem.
pub open spec fn carries(t: TargetV, name: Seq<char>) -> bool {
    t.2.contains(name) || t.1 == Some(name)
}

/// Law: a name resolves to the entry page of a note that carries it, as an
/// alias or title or else as its file stem; and it resolves whenever some
/// note carries it.
pub proof fn lemma_resolve_carries_name(ts: Seq<TargetV>, name: Seq<char>, from: Seq<char>)
    ensures
        resolve_spec(ts, name, from) matches Some(r) ==> exists|i: int|
            0 <= i < ts.len() && ts[i].0 == r && #[trigger] carries(ts[i], name),
        (exists|i: int| 0 <= i < ts.len() && #[trigger] carries(ts[i], name))
            ==> resolve_spec(ts, name, from) is Some,
{
    let a = alias_candidates(ts, name);
    let b = stem_candidates(ts, name);
    lemma_alias_from(ts, name);
    lemma_stem_from(ts, name);
    lemma_pick_in(a, from);
    lemma_pick_in(b, from);
    if resolve_spec(ts, name, from) is Some {
        let r = resolve_spec(ts, name, from)->0;
        if pick_best_spec(a, from) is Some {
            let k = choose|k: int| 0 <= k < a.len() && a[k] == r;
            let i = choose|i: int| 0 <= i < ts.len() && #[trigger] ts[i].0 == #[trigger] a[k] && aliased(ts[i], name);
            assert(carries(ts[i], name));
        } else {
            let k = choose|k: int| 0 <= k < b.len() && b[k] == r;
            let i = choose|i: int| 0 <= i < ts.len() && #[trigger] ts[i].0 == #[trigger] b[k] && ts[i].1 == Some(name);
            assert(carries(ts[i], name));
        }
    }
    if exists|i: int| 0 <= i < ts.len() && #[trigger] carries(ts[i], name) {
        let i = choose|i: int| 0 <= i < ts.len() && #[trigger] carries(ts[i], name);
        lemma_candidates_nonempty(ts, name, i);
    }
}

proof fn lemma_candidates_nonempty(ts: Seq<TargetV>, name: Seq<char>, i: int)
    requires
        0 <= i < ts.len(),
        carries(ts[i], name),
    ensures
        alias_candidates(ts, name).len() > 0 || stem_candidates(ts, name).len() > 0,
    decreases ts.len(),
{
    if i > 0 {
        assert(ts.drop_first()[i - 1] == ts[i]);
        lemma_candidates_nonempty(ts.drop_first(), name, i - 1);
    }
}

/// Law: where some candidate lies in the directory of the linking page, the
/// first such candidate, in their order, is chosen.
pub proof fn lemma_pick_same_dir(ps: Seq<Seq<char>>, from: Seq<char>, j: int)
    requires
        0 <= j < ps.len(),
        parent_dir(ps[j]) == parent_dir(from),
        forall|m: int| 0 <= m < j ==> parent_dir(#[trigger] ps[m]) != parent_dir(from),
    ensures
        pick_best_spec(ps, from) == Some(ps[j]),
{
    lemma_first_same_dir(ps, from);
    let f = first_same_dir(ps, from);
    if f < j {
        assert(parent_dir(ps[f]) != parent_dir(from));
    }
    if f > j {
        assert(parent_dir(ps[j]) != parent_dir(from));
    }
}

/// Law: a link to a name that no note carries as alias or title goes to the
/// entry page of a note with that file stem; where none of them lies in the
/// directory of the linking page, to the one with the fewest path components
/// and, among those, the least path.
pub proof fn lemma_resolve_least(ts: Seq<TargetV>, name: Seq<char>, from: Seq<char>)
    requires
        alias_candidates(ts, name).len() == 0,
        stem_candidates(ts, name).len() > 0,
        forall|k: int| 0 <= k < stem_candidates(ts, name).len() ==> parent_dir(#[trigger] stem_candidates(ts, name)[k]) != parent_dir(from),
    ensures
        resolve_spec(ts, name, from) matches Some(r) && stem_candidates(ts, name).contains(r)
            && forall|k: int| 0 <= k < stem_candidates(ts, name).len() ==>
                components(r).len() <= components(#[trigger] stem_candidates(ts, name)[k]).len()
                && (components(r).len() == components(stem_candidates(ts, name)[k]).len()
                    ==> !crate::order::path_lt(stem_candidates(ts, name)[k], r)),
{
    lemma_pick_least(stem_candidates(ts, name), from);
}

fn copy_string(s: &String) -> (r: String)
    ensures
        r@ == s@,
{
    s.clone()
}

fn section_of(dir: &str, f: &Fragment) -> (r: (String, String))
    ensures
        (r.0@, r.1@) == section_page(dir@, f@),
{
    match f {
        Fragment::H2 { slug, .. } => (copy_string(slug), fragment_leaf_path(dir, slug.as_str())),
        Fragment::Shell { slug, .. } => (copy_string(slug), shell_index_path(dir, slug.as_str())),
    }
}

/// `Path::file_stem` of a path.
pub fn file_stem_exec(p: &str) -> (r: Option<String>)
    ensures
        opt_str(r) == file_stem(p@),
{
    let cs = components_exec(&to_chars(p));
    if cs.len() == 0 {
        None
    } else {
        assert(vv(&cs).last() == cs@[cs@.len() - 1]@);
        Some(from_chars(&stem_exec(&cs[cs.len() - 1])))
    }
}

fn target_for(n: &Node) -> (t: ResolveTarget)
    ensures
        t@ == target_of(*n),
{
    let mut names: Vec<String> = Vec::new();
    let aliases = &n.note.frontmatter.aliases;
    let mut i: usize = 0;
    while i < aliases.len()
        invariant
            i <= aliases@.len(),
            sv(names@) == sv(aliases@.take(i as int)),
        decreases aliases@.len() - i,
    {
        push_string(&mut names, aliases[i].clone());
        assert(sv(aliases@.take(i + 1)) =~= sv(aliases@.take(i as int)).push(aliases@[i as int]@));
        i = i + 1;
    }
    assert(aliases@.take(aliases@.len() as int) =~= aliases@);
    match &n.note.frontmatter.title {
        Some(t) => {
            push_string(&mut names, t.clone());
        },
        None => {},
    }
    assert(sv(names@) =~= target_of(*n).2);
    let frs = &n.fragments.fragments;
    let mut sections: Vec<(String, String)> = Vec::new();
    let mut j: usize = 0;
    while j < frs.len()
        invariant
            j <= frs@.len(),
            pairs_view(sections@) == fragments_view(frs@).take(j as int).map_values(|f: FragmentModel| section_page(n.entry_dir@, f)),
        decreases frs@.len() - j,
    {
        let sec = section_of(n.entry_dir.as_str(), &frs[j]);
        let ghost before = pairs_view(sections@);
        sections.push(sec);
        assert(pairs_view(sections@) =~= before.push((sec.0@, sec.1@)));
        assert(fragments_view(frs@).take(j + 1) =~= fragments_view(frs@).take(j as int).push(frs@[j as int]@));
        j = j + 1;
        assert(pairs_view(sections@) =~= fragments_view(frs@).take(j as int).map_values(|f: FragmentModel| section_page(n.entry_dir@, f)));
    }
    assert(fragments_view(frs@).take(frs@.len() as int) =~= fragments_view(frs@));
    ResolveTarget {
        path: n.output_path.clone(),
        stem: file_stem_exec(n.note.source_file.as_str()),
        names,
        sections,
    }
}

impl Resolver {
    /// The resolver of a set of notes.
    pub fn build(nodes: &[Node]) -> (r: Resolver)
        ensures
            r@ == nodes@.map_values(|n: Node| target_of(n)),
    {
        let mut targets: Vec<ResolveTarget> = Vec::new();
        let mut i: usize = 0;
        while i < nodes.len()
            invariant
                i <= nodes@.len(),
                targets_view(targets@) == nodes@.take(i as int).map_values(|n: Node| target_of(n)),
            decreases nodes@.len() - i,
        {
            let t = target_for(&nodes[i]);
            let ghost before = targets_view(targets@);
            targets.push(t);
            assert(targets_view(targets@) =~= before.push(target_of(nodes@[i as int])));
            assert(nodes@.take(i + 1) =~= nodes@.take(i as int).push(nodes@[i as int]));
            i = i + 1;
            assert(targets_view(targets@) =~= nodes@.take(i as int).map_values(|n: Node| target_of(n)));
        }
        assert(nodes@.take(nodes@.len() as int) =~= nodes@);
        Resolver { targets }
    }

    /// Resolve a name; `from` is the output path of the page that links.
    pub fn resolve(&self, name: &str, from: &str) -> (r: Option<String>)
        ensures
            opt_str(r) == resolve_spec(self@, name@, from@),
    {
        let a = alias_list(&self.targets, name);
        match pick_best(&a, from) {
            Some(p) => Some(p),
            None => {
                let b = stem_list(&self.targets, name);
                pick_best(&b, from)
            },
        }
    }
}

fn contains_string(v: &Vec<String>, s: &str) -> (b: bool)
    ensures
        b == sv(v@).contains(s@),
{
    let sc = to_chars(s);
    let mut i: usize = 0;
    while i < v.len()
        invariant
            i <= v@.len(),
            sc@ == s@,
            forall|k: int| 0 <= k < i ==> sv(v@)[k] != s@,
        decreases v@.len() - i,
    {
        if chars_eq(&to_chars(v[i].as_str()), &sc) {
            assert(sv(v@)[i as int] == s@);
            return true;
        }
        i = i + 1;
    }
    false
}

proof fn lemma_candidates_push(ts: Seq<TargetV>, t: TargetV, name: Seq<char>)
    ensures
        alias_candidates(ts.push(t), name) == alias_candidates(ts, name) + (if t.2.contains(name) { seq![t.0] } else { Seq::<Seq<char>>::empty() }),
        stem_candidates(ts.push(t), name) == stem_candidates(ts, name) + (if t.1 == Some(name) { seq![t.0] } else { Seq::<Seq<char>>::empty() }),
    decreases ts.len(),
{
    let tail_a = if t.2.contains(name) { seq![t.0] } else { Seq::<Seq<char>>::empty() };
    let tail_s = if t.1 == Some(name) { seq![t.0] } else { Seq::<Seq<char>>::empty() };
    if ts.len() > 0 {
        assert(ts.push(t).drop_first() =~= ts.drop_first().push(t));
        assert(ts.push(t)[0] == ts[0]);
        lemma_candidates_push(ts.drop_first(), t, name);
        let ha = if ts[0].2.contains(name) { seq![ts[0].0] } else { Seq::<Seq<char>>::empty() };
        let hs = if ts[0].1 == Some(name) { seq![ts[0].0] } else { Seq::<Seq<char>>::empty() };
        assert(alias_candidates(ts.push(t), name) == ha + alias_candidates(ts.drop_first().push(t), name));
        assert(alias_candidates(ts, name) == ha + alias_candidates(ts.drop_first(), name));
        assert(ha + (alias_candidates(ts.drop_first(), name) + tail_a) =~= (ha + alias_candidates(ts.drop_first(), name)) + tail_a);
        assert(stem_candidates(ts.push(t), name) == hs + stem_candidates(ts.drop_first().push(t), name));
        assert(stem_candidates(ts, name) == hs + stem_candidates(ts.drop_first(), name));
        assert(hs + (stem_candidates(ts.drop_first(), name) + tail_s) =~= (hs + stem_candidates(ts.drop_first(), name)) + tail_s);
    } else {
        assert(ts.push(t).drop_first() =~= Seq::<TargetV>::empty());
        assert(ts.push(t)[0] == t);
        assert(alias_candidates(Seq::<TargetV>::empty(), name) == Seq::<Seq<char>>::empty());
        assert(stem_candidates(Seq::<TargetV>::empty(), name) == Seq::<Seq<char>>::empty());
        assert(alias_candidates(ts.push(t), name) =~= tail_a);
        assert(stem_candidates(ts.push(t), name) =~= tail_s);
        assert(Seq::<Seq<char>>::empty() + tail_a =~= tail_a);
        assert(Seq::<Seq<char>>::empty() + tail_s =~= tail_s);
    }
}

fn alias_list(ts: &Vec<ResolveTarget>, name: &str) -> (r: Vec<String>)
    ensures
        sv(r@) == alias_candidates(targets_view(ts@), name@),
{
    let mut out: Vec<String> = Vec::new();
    let mut i: usize = 0;
    while i < ts.len()
        invariant
            i <= ts@.len(),
            sv(out@) == alias_candidates(targets_view(ts@.take(i as int)), name@),
        decreases ts@.len() - i,
    {
        proof {
            assert(targets_view(ts@.take(i + 1)) =~= targets_view(ts@.take(i as int)).push(ts@[i as int]@));
            lemma_candidates_push(targets_view(ts@.take(i as int)), ts@[i as int]@, name@);
        }
        if contains_string(&ts[i].names, name) {
            push_string(&mut out, ts[i].path.clone());
        }
        i = i + 1;
    }
    assert(ts@.take(ts@.len() as int) =~= ts@);
    out
}

fn stem_list(ts: &Vec<ResolveTarget>, name: &str) -> (r: Vec<String>)
    ensures
        sv(r@) == stem_candidates(targets_view(ts@), name@),
{
    let mut out: Vec<String> = Vec::new();
    let nc = to_chars(name);
    let mut i: usize = 0;
    while i < ts.len()
        invariant
            i <= ts@.len(),
            nc@ == name@,
            sv(out@) == stem_candidates(targets_view(ts@.take(i as int)), name@),
        decreases ts@.len() - i,
    {
        proof {
            assert(targets_view(ts@.take(i + 1)) =~= targets_view(ts@.take(i as int)).push(ts@[i as int]@));
            lemma_candidates_push(targets_view(ts@.take(i as int)), ts@[i as int]@, name@);
        }
        let hit = match &ts[i].stem {
            Some(s) => chars_eq(&to_chars(s.as_str()), &nc),
            None => false,
        };
        if hit {
            push_string(&mut out, ts[i].path.clone());
        }
        i = i + 1;
    }
    assert(ts@.take(ts@.len() as int) =~= ts@);
    out
}

fn ranks_before_exec(q: &str, p: &str) -> (b: bool)
    ensures
        b == ranks_before(q@, p@),
{
    let cq = components_exec(&to_chars(q)).len();
    let cp = components_exec(&to_chars(p)).len();
    cq < cp || (cq == cp && path_lt_exec(q, p))
}

/// Pick the best candidate among `paths` for a link from `from`.
pub fn pick_best(paths: &Vec<String>, from: &str) -> (r: Option<String>)
    ensures
        opt_str(r) == pick_best_spec(sv(paths@), from@),
{
    let ghost ps = sv(paths@);
    if paths.len() == 0 {
        return None;
    }
    if paths.len() == 1 {
        return Some(paths[0].clone());
    }
    let fp = to_chars(parent_dir_exec(from).as_str());
    proof {
        lemma_first_same_dir(ps, from@);
    }
    let mut i: usize = 0;
    while i < paths.len()
        invariant
            i <= paths@.len(),
            ps == sv(paths@),
            fp@ == parent_dir(from@),
            0 <= first_same_dir(ps, from@) <= ps.len(),
            first_same_dir(ps, from@) < ps.len() ==> parent_dir(ps[first_same_dir(ps, from@)]) == parent_dir(from@),
            forall|k: int| 0 <= k < first_same_dir(ps, from@) ==> parent_dir(#[trigger] ps[k]) != parent_dir(from@),
            i <= first_same_dir(ps, from@),
        decreases paths@.len() - i,
    {
        let pd = to_chars(parent_dir_exec(paths[i].as_str()).as_str());
        if chars_eq(&pd, &fp) {
            assert(ps[i as int] == paths@[i as int]@);
            return Some(paths[i].clone());
        }
        assert(ps[i as int] == paths@[i as int]@);
        i = i + 1;
    }
    let mut b: usize = 0;
    let mut j: usize = 1;
    assert(ps.take(1).drop_last() =~= Seq::<Seq<char>>::empty());
    assert(best_ranked(ps.take(1)) == ps[0]);
    while j < paths.len()
        invariant
            1 <= j <= paths@.len(),
            ps == sv(paths@),
            b < j,
            ps[b as int] == best_ranked(ps.take(j as int)),
        decreases paths@.len() - j,
    {
        assert(ps.take(j + 1).drop_last() =~= ps.take(j as int));
        if ranks_before_exec(paths[j].as_str(), paths[b].as_str()) {
            b = j;
        }
        j = j + 1;
    }
    assert(ps.take(j as int) =~= ps);
    Some(paths[b].clone())
}

/// Where a link with an optional heading goes.
#[derive(Debug)]
pub enum Resolution {
    /// The target note's entry page.
    Entry(String),
    /// An anchor in the target note's entry page.
    EntryAnchor(String, String),
    /// The page of the h2 fragment (or shell) the heading names.
    Page(String),
    /// Nothing of that name.
    Missing,
}

pub enum ResolutionV {
    Entry(Seq<char>),
    EntryAnchor(Seq<char>, Seq<char>),
    Page(Seq<char>),
    Missing,
}

impl View for Resolution {
    type V = ResolutionV;

    open spec fn view(&self) -> ResolutionV {
        match self {
            Resolution::Entry(p) => ResolutionV::Entry(p@),
            Resolution::EntryAnchor(p, s) => ResolutionV::EntryAnchor(p@, s@),
            Resolution::Page(p) => ResolutionV::Page(p@),
            Resolution::Missing => ResolutionV::Missing,
        }
    }
}

/// The page of the first section with slug `s`.
pub open spec fn section_in(secs: Seq<(Seq<char>, Seq<char>)>, s: Seq<char>) -> Option<Seq<char>>
    decreases secs.len(),
{
    if secs.len() == 0 {
        None
    } else if secs[0].0 == s {
        Some(secs[0].1)
    } else {
        section_in(secs.drop_first(), s)
    }
}

/// The page of section `s` of the first target whose entry page is `e`.
pub open spec fn section_for(ts: Seq<TargetV>, e: Seq<char>, s: Seq<char>) -> Option<Seq<char>>
    decreases ts.len(),
{
    if ts.len() == 0 {
        None
    } else if ts[0].0 == e {
        section_in(ts[0].3, s)
    } else {
        section_for(ts.drop_first(), e, s)
    }
}

/// Where `[[target#heading]]` from a note whose entry page is `anchor` goes.
pub open spec fn resolve_heading_spec(ts: Seq<TargetV>, target: Seq<char>, heading: Option<Seq<char>>, anchor: Seq<char>) -> ResolutionV {
    match resolve_spec(ts, target, anchor) {
        None => ResolutionV::Missing,
        Some(e) => match heading {
            None => ResolutionV::Entry(e),
            Some(h) => match section_for(ts, e, slug_of(h)) {
                Some(p) => ResolutionV::Page(p),
                None => ResolutionV::EntryAnchor(e, slug_of(h)),
            },
        },
    }
}

fn section_in_exec(secs: &Vec<(String, String)>, s: &[char]) -> (r: Option<String>)
    ensures
        opt_str(r) == section_in(pairs_view(secs@), s@),
{
    let mut i: usize = 0;
    assert(pairs_view(secs@).skip(0) =~= pairs_view(secs@));
    while i < secs.len()
        invariant
            i <= secs@.len(),
            section_in(pairs_view(secs@), s@) == section_in(pairs_view(secs@).skip(i as int), s@),
        decreases secs@.len() - i,
    {
        let ghost rest = pairs_view(secs@).skip(i as int);
        assert(rest[0] == (secs@[i as int].0@, secs@[i as int].1@));
        assert(rest.drop_first() =~= pairs_view(secs@).skip(i + 1));
        if chars_eq(&to_chars(secs[i].0.as_str()), s) {
            return Some(secs[i].1.clone());
        }
        i = i + 1;
    }
    assert(pairs_view(secs@).skip(i as int) =~= Seq::<(Seq<char>, Seq<char>)>::empty());
    None
}

impl Resolver {
    fn section_for_exec(&self, e: &str, s: &[char]) -> (r: Option<String>)
        ensures
            opt_str(r) == section_for(self@, e@, s@),
    {
        let ec = to_chars(e);
        let mut i: usize = 0;
        assert(self@.skip(0) =~= self@);
        while i < self.targets.len()
            invariant
                i <= self.targets@.len(),
                ec@ == e@,
                section_for(self@, e@, s@) == section_for(self@.skip(i as int), e@, s@),
            decreases self.targets@.len() - i,
        {
            let ghost rest = self@.skip(i as int);
            assert(rest[0] == self.targets@[i as int]@);
            assert(rest.drop_first() =~= self@.skip(i + 1));
            if chars_eq(&to_chars(self.targets[i].path.as_str()), &ec) {
                return section_in_exec(&self.targets[i].sections, s);
            }
            i = i + 1;
        }
        assert(self@.skip(i as int) =~= Seq::<TargetV>::empty());
        None
    }

    /// Resolve `[[target#heading]]`; `anchor` is the entry page of the note that links.
    pub fn resolve_with_heading(&self, target: &str, heading: Option<&str>, anchor: &str) -> (r: Resolution)
        ensures
            r@ == resolve_heading_spec(self@, target@, match heading { Some(h) => Some(h@), None => None }, anchor@),
    {
        match self.resolve(target, anchor) {
            None => Resolution::Missing,
            Some(e) => match heading {
                None => Resolution::Entry(e),
                Some(h) => {
                    let s = slugify(h);
                    match self.section_for_exec(e.as_str(), &to_chars(s.as_str())) {
                        Some(p) => Resolution::Page(p),
                        None => Resolution::EntryAnchor(e, s),
                    }
                },
            },
        }
    }
}

#[derive(Debug, Clone)]
pub struct UnresolvedLink {
    /// The output path of the page that links.
    pub source: String,
    pub target: String,
    pub heading: Option<String>,
    pub alias: Option<String>,
}

/// Unresolved links order by source page (as paths order), then target text.
impl Keyed for UnresolvedLink {
    open spec fn key_lt(&self, other: &Self) -> bool {
        path_lt(self.source@, other.source@)
            || (same_path(self.source@, other.source@) && text_lt(self.target@, other.target@))
    }

    fn lt(&self, other: &Self) -> (r: bool) {
        path_lt_exec(self.source.as_str(), other.source.as_str())
            || (same_path_exec(self.source.as_str(), other.source.as_str())
                && text_lt_exec(&to_chars(self.target.as_str()), &to_chars(other.target.as_str())))
    }

    proof fn lemma_asym(a: &Self, b: &Self) {
        lemma_path_trichotomy(a.source@, b.source@);
        lemma_path_lt_asym(a.source@, b.source@);
        if text_lt(a.target@, b.target@) && text_lt(b.target@, a.target@) {
            lemma_text_lt_trans(a.target@, b.target@, a.target@);
            lemma_text_lt_irrefl(a.target@);
        }
    }

    proof fn lemma_neg_trans(a: &Self, b: &Self, c: &Self) {
        let (sa, sb, sc) = (a.source@, b.source@, c.source@);
        let (ta, tb, tc) = (a.target@, b.target@, c.target@);
        lemma_path_trichotomy(sa, sb);
        lemma_path_trichotomy(sb, sc);
        lemma_path_trichotomy(sa, sc);
        if path_lt(sc, sa) {
            if path_lt(sa, sb) {
                lemma_path_lt_trans(sc, sa, sb);
            } else if same_path(sa, sb) {
                lemma_path_lt_same(sc, sc, sa, sb);
            }
        } else if same_path(sc, sa) && text_lt(tc, ta) {
            lemma_path_lt_same(sb, sb, sa, sc);
            lemma_path_lt_same(sc, sa, sb, sb);
            lemma_text_lt_total(ta, tb);
            if text_lt(ta, tb) {
                lemma_text_lt_trans(tc, ta, tb);
            }
        }
    }
}

} // verus!
