//! The registry of planned pages: one page per output path, each under the
//! hard size limit, with parent / prev / next links that resolve.
use vstd::prelude::*;
use crate::large_markdown::{plans_view, PageKind, PagePlan, PlanV};
use crate::link::resolver::opt_str;
use crate::order::{
    lemma_path_le_trans, lemma_path_lt_asym, path_lt, path_lt_exec, same_path, same_path_exec, sort_by_key,
    sorted_by_key, Keyed,
};
use crate::num::{decimal, decimal_chars};
use crate::paths::{join2, join2_exec, parent_dir, parent_dir_exec};
use crate::strs::{chars_eq, from_chars, split_chars, split_on, starts_with, to_chars, vv, eq_str};

verus! {

broadcast use vstd::seq_lib::group_to_multiset_ensures;

pub const PAGE_HARD_LIMIT_CHARS: usize = 40_000;

/// Why a set of plans cannot be registered.
#[derive(Debug)]
pub enum RegistryError {
    /// "page exceeds hard limit: {chars} chars at {path}"
    Oversize { chars: usize, path: String },
    /// "duplicate output path registered"
    DuplicatePath,
    /// "missing parent {parent} for {path}"
    MissingParent { parent: String, path: String },
    /// "missing next {next} for {path}"
    MissingNext { next: String, path: String },
    /// "next.prev does not point back to {path}"
    BrokenBack { path: String },
}

pub enum RegistryErrorV {
    Oversize { chars: usize, path: Seq<char> },
    DuplicatePath,
    MissingParent { parent: Seq<char>, path: Seq<char> },
    MissingNext { next: Seq<char>, path: Seq<char> },
    BrokenBack { path: Seq<char> },
}

impl View for RegistryError {
    type V = RegistryErrorV;

    open spec fn view(&self) -> RegistryErrorV {
        match self {
            RegistryError::Oversize { chars, path } => RegistryErrorV::Oversize { chars: *chars, path: path@ },
            RegistryError::DuplicatePath => RegistryErrorV::DuplicatePath,
            RegistryError::MissingParent { parent, path } => RegistryErrorV::MissingParent { parent: parent@, path: path@ },
            RegistryError::MissingNext { next, path } => RegistryErrorV::MissingNext { next: next@, path: path@ },
            RegistryError::BrokenBack { path } => RegistryErrorV::BrokenBack { path: path@ },
        }
    }
}

/// The message of a registry error.
pub open spec fn registry_message(e: RegistryErrorV) -> Seq<char> {
    match e {
        RegistryErrorV::Oversize { chars, path } => "page exceeds hard limit: "@ + decimal(chars as nat) + " chars at "@ + path,
        RegistryErrorV::DuplicatePath => "duplicate output path registered"@,
        RegistryErrorV::MissingParent { parent, path } => "missing parent "@ + parent + " for "@ + path,
        RegistryErrorV::MissingNext { next, path } => "missing next "@ + next + " for "@ + path,
        RegistryErrorV::BrokenBack { path } => "next.prev does not point back to "@ + path,
    }
}

impl RegistryError {
    /// The message of the error.
    pub fn message(&self) -> (r: String)
        ensures
            r@ == registry_message(self@),
    {
        match self {
            RegistryError::Oversize { chars, path } => {
                let mut s = String::from_str("page exceeds hard limit: ");
                s.append(from_chars(&decimal_chars(*chars)).as_str());
                s.append(" chars at ");
                s.append(path.as_str());
                s
            },
            RegistryError::DuplicatePath => String::from_str("duplicate output path registered"),
            RegistryError::MissingParent { parent, path } => {
                let mut s = String::from_str("missing parent ");
                s.append(parent.as_str());
                s.append(" for ");
                s.append(path.as_str());
                s
            },
            RegistryError::MissingNext { next, path } => {
                let mut s = String::from_str("missing next ");
                s.append(next.as_str());
                s.append(" for ");
                s.append(path.as_str());
                s
            },
            RegistryError::BrokenBack { path } => {
                let mut s = String::from_str("next.prev does not point back to ");
                s.append(path.as_str());
                s
            },
        }
    }
}

/// Output path to page plan, in path order.
#[derive(Debug, Default)]
pub struct PageRegistry {
    pages: Vec<PagePlan>,
}

impl View for PageRegistry {
    type V = Seq<PlanV>;

    closed spec fn view(&self) -> Seq<PlanV> {
        plans_view(self.pages@)
    }
}

/// Plans order by output path.
impl Keyed for PagePlan {
    open spec fn key_lt(&self, other: &Self) -> bool {
        path_lt(self.output_path@, other.output_path@)
    }

    fn lt(&self, other: &Self) -> (r: bool) {
        path_lt_exec(self.output_path.as_str(), other.output_path.as_str())
    }

    proof fn lemma_asym(a: &Self, b: &Self) {
        lemma_path_lt_asym(a.output_path@, b.output_path@);
    }

    proof fn lemma_neg_trans(a: &Self, b: &Self, c: &Self) {
        lemma_path_le_trans(a.output_path@, b.output_path@, c.output_path@);
    }
}

// ---------------------------------------------------------------------------
// Neighbours
// ---------------------------------------------------------------------------

/// Walk path pieces: `..` drops the last kept piece, `.` and empty pieces are skipped.
pub open spec fn normalize_parts(parts: Seq<Seq<char>>, acc: Seq<Seq<char>>) -> Seq<Seq<char>>
    decreases parts.len(),
{
    if parts.len() == 0 {
        acc
    } else {
        let p = parts[0];
        let acc2 = if p == seq!['.', '.'] {
            if acc.len() > 0 { acc.drop_last() } else { acc }
        } else if p == seq!['.'] || p.len() == 0 {
            acc
        } else {
            acc.push(p)
        };
        normalize_parts(parts.drop_first(), acc2)
    }
}

/// The page a relative link `rel` on page `from` points to.
pub open spec fn resolve_neighbor(from: Seq<char>, rel: Seq<char>) -> Seq<char> {
    let joined = if starts_with(rel, seq!['/']) { rel } else { join2(parent_dir(from), rel) };
    crate::paths::path_of(normalize_parts(split_on(joined, '/'), seq![]))
}

pub fn resolve_neighbor_exec(from: &str, rel: &str) -> (r: String)
    ensures
        r@ == resolve_neighbor(from@, rel@),
{
    let rv = to_chars(rel);
    let joined: Vec<char> = if rv.len() > 0 && rv[0] == '/' {
        proof {
            assert(rv@.subrange(0, 1) =~= seq!['/']);
        }
        rv
    } else {
        proof {
            if rv@.len() > 0 {
                assert(rv@.subrange(0, 1)[0] == rv@[0]);
            }
        }
        join2_exec(&to_chars(parent_dir_exec(from).as_str()), &rv)
    };
    let parts = split_chars(&joined, '/');
    let mut acc: Vec<Vec<char>> = Vec::new();
    assert(vv(&acc) =~= Seq::<Seq<char>>::empty());
    let mut i: usize = 0;
    let ghost ps = vv(&parts);
    assert(ps.skip(0) =~= ps);
    while i < parts.len()
        invariant
            i <= parts@.len(),
            ps == vv(&parts),
            normalize_parts(ps.skip(i as int), vv(&acc)) == normalize_parts(ps, seq![]),
        decreases parts@.len() - i,
    {
        let ghost rest = ps.skip(i as int);
        assert(rest[0] == parts@[i as int]@);
        assert(rest.drop_first() =~= ps.skip(i + 1));
        let p = &parts[i];
        let dotdot = ['.', '.'];
        let dot = ['.'];
        assert(dotdot@ =~= seq!['.', '.']);
        assert(dot@ =~= seq!['.']);
        if chars_eq(p, &dotdot) {
            if acc.len() > 0 {
                let ghost before = vv(&acc);
                acc.pop();
                assert(vv(&acc) =~= before.drop_last());
            }
        } else if chars_eq(p, &dot) || p.len() == 0 {
        } else {
            let q = crate::strs::slice_copy(p, 0, p.len());
            assert(p@.subrange(0, p@.len() as int) =~= p@);
            crate::strs::push_vec(&mut acc, q);
        }
        i = i + 1;
    }
    assert(ps.skip(i as int) =~= Seq::<Seq<char>>::empty());
    let sep = ['/'];
    assert(sep@ =~= seq!['/']);
    from_chars(&crate::strs::join_chars(&acc, &sep))
}

// ---------------------------------------------------------------------------
// Building
// ---------------------------------------------------------------------------

/// A plan of `ps[..i]` has the output path of `ps[i]`.
pub open spec fn duplicates_earlier(ps: Seq<PlanV>, i: int) -> bool {
    exists|j: int| 0 <= j < i && same_path(#[trigger] ps[j].output_path, ps[i].output_path)
}

/// The first plan that is too large or repeats a path, if any, and why.
pub open spec fn intake_error(ps: Seq<PlanV>, i: int) -> Option<RegistryErrorV>
    decreases ps.len() - i,
{
    if i < 0 || i >= ps.len() {
        None
    } else if ps[i].estimated_chars > PAGE_HARD_LIMIT_CHARS {
        Some(RegistryErrorV::Oversize { chars: ps[i].estimated_chars, path: ps[i].output_path })
    } else if duplicates_earlier(ps, i) {
        Some(RegistryErrorV::DuplicatePath)
    } else {
        intake_error(ps, i + 1)
    }
}

/// The page of `pages` at path `t`, if any.
pub open spec fn page_at(pages: Seq<PlanV>, t: Seq<char>) -> Option<PlanV>
    decreases pages.len(),
{
    if pages.len() == 0 {
        None
    } else if same_path(pages[0].output_path, t) {
        Some(pages[0])
    } else {
        page_at(pages.drop_first(), t)
    }
}

/// What is wrong with the links of one page, if anything.
pub open spec fn nav_error_of(pages: Seq<PlanV>, p: PlanV) -> Option<RegistryErrorV> {
    if p.parent is Some && page_at(pages, resolve_neighbor(p.output_path, p.parent->0)) is None {
        Some(RegistryErrorV::MissingParent { parent: p.parent->0, path: p.output_path })
    } else if p.next is Some {
        let t = resolve_neighbor(p.output_path, p.next->0);
        match page_at(pages, t) {
            None => Some(RegistryErrorV::MissingNext { next: p.next->0, path: p.output_path }),
            Some(np) => if np.prev is Some && same_path(resolve_neighbor(np.output_path, np.prev->0), p.output_path) {
                None
            } else {
                Some(RegistryErrorV::BrokenBack { path: p.output_path })
            },
        }
    } else {
        None
    }
}

/// The first page, in path order, whose links are wrong.
pub open spec fn first_nav_error(pages: Seq<PlanV>, i: int) -> Option<RegistryErrorV>
    decreases pages.len() - i,
{
    if i < 0 || i >= pages.len() {
        None
    } else if nav_error_of(pages, pages[i]) is Some {
        nav_error_of(pages, pages[i])
    } else {
        first_nav_error(pages, i + 1)
    }
}

fn page_at_exec(pages: &Vec<PagePlan>, t: &str) -> (r: Option<usize>)
    ensures
        match page_at(plans_view(pages@), t@) {
            Some(p) => r matches Some(k) && k < pages@.len() && pages@[k as int]@ == p,
            None => r is None,
        },
{
    let ghost pv = plans_view(pages@);
    let mut i: usize = 0;
    assert(pv.skip(0) =~= pv);
    while i < pages.len()
        invariant
            i <= pages@.len(),
            pv == plans_view(pages@),
            page_at(pv, t@) == page_at(pv.skip(i as int), t@),
        decreases pages@.len() - i,
    {
        let ghost rest = pv.skip(i as int);
        assert(rest[0] == pages@[i as int]@);
        assert(rest.drop_first() =~= pv.skip(i + 1));
        if same_path_exec(pages[i].output_path.as_str(), t) {
            return Some(i);
        }
        i = i + 1;
    }
    assert(pv.skip(i as int) =~= Seq::<PlanV>::empty());
    None
}

fn nav_error_exec(pages: &Vec<PagePlan>, k: usize) -> (r: Option<RegistryError>)
    requires
        k < pages@.len(),
    ensures
        match nav_error_of(plans_view(pages@), pages@[k as int]@) {
            Some(e) => r matches Some(x) && x@ == e,
            None => r is None,
        },
{
    let p = &pages[k];
    match &p.parent {
        Some(parent) => {
            let t = resolve_neighbor_exec(p.output_path.as_str(), parent.as_str());
            if page_at_exec(pages, t.as_str()).is_none() {
                return Some(RegistryError::MissingParent { parent: parent.clone(), path: p.output_path.clone() });
            }
        },
        None => {},
    }
    match &p.next {
        Some(next) => {
            let t = resolve_neighbor_exec(p.output_path.as_str(), next.as_str());
            match page_at_exec(pages, t.as_str()) {
                None => Some(RegistryError::MissingNext { next: next.clone(), path: p.output_path.clone() }),
                Some(j) => {
                    let np = &pages[j];
                    let ok = match &np.prev {
                        Some(prev) => {
                            let back = resolve_neighbor_exec(np.output_path.as_str(), prev.as_str());
                            same_path_exec(back.as_str(), p.output_path.as_str())
                        },
                        None => false,
                    };
                    if ok {
                        None
                    } else {
                        Some(RegistryError::BrokenBack { path: p.output_path.clone() })
                    }
                },
            }
        },
        None => None,
    }
}

fn validate_navigation(pages: &Vec<PagePlan>) -> (r: Option<RegistryError>)
    ensures
        match first_nav_error(plans_view(pages@), 0) {
            Some(e) => r matches Some(x) && x@ == e,
            None => r is None,
        },
{
    let ghost pv = plans_view(pages@);
    let mut i: usize = 0;
    while i < pages.len()
        invariant
            i <= pages@.len(),
            pv == plans_view(pages@),
            first_nav_error(pv, 0) == first_nav_error(pv, i as int),
        decreases pages@.len() - i,
    {
        assert(pv[i as int] == pages@[i as int]@);
        match nav_error_exec(pages, i) {
            Some(e) => {
                return Some(e);
            },
            None => {},
        }
        i = i + 1;
    }
    None
}

/// Number of leading pages of `s` whose path is below `t`.
pub open spec fn plan_count_below(s: Seq<PlanV>, t: Seq<char>) -> int
    decreases s.len(),
{
    if s.len() == 0 {
        0
    } else if path_lt(s[0].output_path, t) {
        1 + plan_count_below(s.drop_first(), t)
    } else {
        0
    }
}

/// `s` with `x` put in its place by path.
pub open spec fn insert_plan(s: Seq<PlanV>, x: PlanV) -> Seq<PlanV> {
    let c = plan_count_below(s, x.output_path);
    s.take(c) + seq![x] + s.skip(c)
}

/// The plans inserted one by one into path order (as a map keyed by path holds them).
pub open spec fn plans_sorted(ps: Seq<PlanV>) -> Seq<PlanV>
    decreases ps.len(),
{
    if ps.len() == 0 {
        seq![]
    } else {
        insert_plan(plans_sorted(ps.drop_last()), ps.last())
    }
}

/// Strictly increasing by output path.
pub open spec fn strictly_by_path(s: Seq<PlanV>) -> bool {
    forall|i: int, j: int| 0 <= i < j < s.len() ==> path_lt(#[trigger] s[i].output_path, #[trigger] s[j].output_path)
}

proof fn lemma_plan_count_below(s: Seq<PlanV>, t: Seq<char>)
    ensures
        0 <= plan_count_below(s, t) <= s.len(),
        forall|k: int| 0 <= k < plan_count_below(s, t) ==> path_lt(#[trigger] s[k].output_path, t),
        plan_count_below(s, t) < s.len() ==> !path_lt(s[plan_count_below(s, t)].output_path, t),
    decreases s.len(),
{
    if s.len() > 0 && path_lt(s[0].output_path, t) {
        lemma_plan_count_below(s.drop_first(), t);
        assert forall|k: int| 0 <= k < plan_count_below(s, t) implies path_lt(#[trigger] s[k].output_path, t) by {
            if k > 0 {
                assert(s[k] == s.drop_first()[k - 1]);
            }
        }
    }
}

proof fn lemma_insert_plan(s: Seq<PlanV>, x: PlanV)
    requires
        strictly_by_path(s),
        forall|k: int| 0 <= k < s.len() ==> !same_path(#[trigger] s[k].output_path, x.output_path),
    ensures
        strictly_by_path(insert_plan(s, x)),
{
    lemma_plan_count_below(s, x.output_path);
    let c = plan_count_below(s, x.output_path);
    let r = insert_plan(s, x);
    assert forall|i: int, j: int| 0 <= i < j < r.len() implies path_lt(#[trigger] r[i].output_path, #[trigger] r[j].output_path) by {
        if j < c {
            assert(r[i] == s[i] && r[j] == s[j]);
        } else if j == c {
            assert(r[i] == s[i]);
        } else if i < c {
            assert(r[i] == s[i] && r[j] == s[j - 1]);
            crate::order::lemma_path_trichotomy(s[c].output_path, x.output_path);
            if j - 1 > c {
                crate::order::lemma_path_lt_trans(s[i].output_path, x.output_path, s[c].output_path);
                crate::order::lemma_path_lt_trans(s[i].output_path, s[c].output_path, s[j - 1].output_path);
            } else {
                crate::order::lemma_path_lt_trans(s[i].output_path, x.output_path, s[c].output_path);
            }
        } else if i == c {
            assert(r[j] == s[j - 1]);
            crate::order::lemma_path_trichotomy(s[c].output_path, x.output_path);
            if j - 1 > c {
                crate::order::lemma_path_lt_trans(x.output_path, s[c].output_path, s[j - 1].output_path);
            }
        } else {
            assert(r[i] == s[i - 1] && r[j] == s[j - 1]);
        }
    }
}

proof fn lemma_insert_plan_members(s: Seq<PlanV>, x: PlanV)
    ensures
        ({
            let c = plan_count_below(s, x.output_path);
            let r = insert_plan(s, x);
            &&& r.len() == s.len() + 1
            &&& 0 <= c <= s.len()
            &&& r[c] == x
            &&& forall|k: int| 0 <= k < c ==> #[trigger] r[k] == s[k]
            &&& forall|k: int| c < k < r.len() ==> #[trigger] r[k] == s[k - 1]
        }),
{
    lemma_plan_count_below(s, x.output_path);
}

/// Index of a page with path `p`, if any.
fn dup_index(pages: &Vec<PagePlan>, p: &str) -> (r: Option<usize>)
    ensures
        match r {
            Some(j) => j < pages@.len() && same_path(plans_view(pages@)[j as int].output_path, p@),
            None => forall|q: int| 0 <= q < pages@.len() ==> !same_path(#[trigger] plans_view(pages@)[q].output_path, p@),
        },
{
    let mut j: usize = 0;
    while j < pages.len()
        invariant
            j <= pages@.len(),
            forall|q: int| 0 <= q < j ==> !same_path(#[trigger] plans_view(pages@)[q].output_path, p@),
        decreases pages@.len() - j,
    {
        assert(plans_view(pages@)[j as int] == pages@[j as int]@);
        if same_path_exec(pages[j].output_path.as_str(), p) {
            return Some(j);
        }
        j = j + 1;
    }
    None
}

/// Insert a plan at its place by path.
fn insert_plan_exec(pages: &mut Vec<PagePlan>, x: PagePlan)
    ensures
        plans_view(final(pages)@) == insert_plan(plans_view(old(pages)@), x@),
{
    let ghost s = plans_view(pages@);
    proof {
        lemma_plan_count_below(s, x@.output_path);
    }
    let mut k: usize = 0;
    loop
        invariant
            k <= pages@.len(),
            s == plans_view(pages@),
            0 <= plan_count_below(s, x@.output_path) <= s.len(),
            forall|j: int| 0 <= j < plan_count_below(s, x@.output_path) ==> path_lt(#[trigger] s[j].output_path, x@.output_path),
            plan_count_below(s, x@.output_path) < s.len() ==> !path_lt(s[plan_count_below(s, x@.output_path)].output_path, x@.output_path),
            k <= plan_count_below(s, x@.output_path),
        ensures
            k as int == plan_count_below(s, x@.output_path),
            s == plans_view(pages@),
        decreases pages@.len() - k,
    {
        if k >= pages.len() {
            break;
        }
        assert(s[k as int] == pages@[k as int]@);
        assert(s[k as int].output_path == pages@[k as int].output_path@);
        if !path_lt_exec(pages[k].output_path.as_str(), x.output_path.as_str()) {
            break;
        }
        k = k + 1;
    }
    assert(k as int == plan_count_below(s, x@.output_path));
    let ghost xv = x@;
    pages.insert(k, x);
    assert(plans_view(pages@) =~= s.take(k as int) + seq![xv] + s.skip(k as int));
}

/// The output paths of `s`.
pub open spec fn path_set(s: Seq<PlanV>) -> Set<Seq<char>> {
    Set::new(|t: Seq<char>| exists|k: int| 0 <= k < s.len() && #[trigger] s[k].output_path == t)
}

/// A path already registered that names the same file as `pv[i]` means `pv[i]` repeats an earlier path.
proof fn lemma_dup_found(pv: Seq<PlanV>, i: int, ps: Seq<PlanV>, j: int)
    requires
        0 <= i < pv.len(),
        0 <= j < ps.len(),
        path_set(ps) == path_set(pv.take(i)),
        same_path(ps[j].output_path, pv[i].output_path),
    ensures
        duplicates_earlier(pv, i),
{
    assert(path_set(ps).contains(ps[j].output_path));
    assert(path_set(pv.take(i)).contains(ps[j].output_path));
    let jj = choose|jj: int| 0 <= jj < pv.take(i).len() && #[trigger] pv.take(i)[jj].output_path == ps[j].output_path;
    assert(pv[jj] == pv.take(i)[jj]);
}

/// Registering `pv[i]` when no registered page has its path.
proof fn lemma_intake_step(pv: Seq<PlanV>, i: int, ps: Seq<PlanV>)
    requires
        0 <= i < pv.len(),
        ps == plans_sorted(pv.take(i)),
        strictly_by_path(ps),
        path_set(ps) == path_set(pv.take(i)),
        forall|k: int| 0 <= k < ps.len() ==> !same_path(#[trigger] ps[k].output_path, pv[i].output_path),
    ensures
        !duplicates_earlier(pv, i),
        plans_sorted(pv.take(i + 1)) == insert_plan(ps, pv[i]),
        strictly_by_path(insert_plan(ps, pv[i])),
        path_set(insert_plan(ps, pv[i])) == path_set(pv.take(i + 1)),
{
    let x = pv[i];
    assert(pv.take(i + 1).drop_last() =~= pv.take(i));
    assert(pv.take(i + 1).last() == x);
    lemma_insert_plan(ps, x);
    lemma_insert_plan_members(ps, x);
    let c = plan_count_below(ps, x.output_path);
    let r = insert_plan(ps, x);
    if duplicates_earlier(pv, i) {
        let jj = choose|jj: int| 0 <= jj < i && same_path(#[trigger] pv[jj].output_path, pv[i].output_path);
        assert(pv.take(i)[jj].output_path == pv[jj].output_path);
        assert(path_set(pv.take(i)).contains(pv[jj].output_path));
        assert(path_set(ps).contains(pv[jj].output_path));
        let k = choose|k: int| 0 <= k < ps.len() && #[trigger] ps[k].output_path == pv[jj].output_path;
        assert(!same_path(ps[k].output_path, x.output_path));
    }
    assert forall|t: Seq<char>| path_set(r).contains(t) <==> path_set(pv.take(i + 1)).contains(t) by {
        if path_set(r).contains(t) {
            let k = choose|k: int| 0 <= k < r.len() && #[trigger] r[k].output_path == t;
            if k == c {
                assert(pv.take(i + 1)[i].output_path == t);
            } else {
                let k0 = if k < c { k } else { k - 1 };
                assert(r[k] == ps[k0]);
                assert(path_set(ps).contains(t));
                assert(path_set(pv.take(i)).contains(t));
                let jj = choose|jj: int| 0 <= jj < pv.take(i).len() && #[trigger] pv.take(i)[jj].output_path == t;
                assert(pv.take(i + 1)[jj] == pv.take(i)[jj]);
            }
        }
        if path_set(pv.take(i + 1)).contains(t) {
            let jj = choose|jj: int| 0 <= jj < pv.take(i + 1).len() && #[trigger] pv.take(i + 1)[jj].output_path == t;
            if jj == i {
                assert(r[c].output_path == t);
            } else {
                assert(pv.take(i)[jj] == pv.take(i + 1)[jj]);
                assert(path_set(pv.take(i)).contains(t));
                assert(path_set(ps).contains(t));
                let k0 = choose|k0: int| 0 <= k0 < ps.len() && #[trigger] ps[k0].output_path == t;
                let k = if k0 < c { k0 } else { k0 + 1 };
                assert(r[k] == ps[k0]);
            }
        }
    }
    assert(path_set(r) =~= path_set(pv.take(i + 1)));
}

/// Check sizes and paths, and put the plans in path order.
fn intake(plans: Vec<PagePlan>) -> (r: Result<Vec<PagePlan>, RegistryError>)
ensures
    match intake_error(plans_view(plans@), 0) {
        Some(e) => r matches Err(x) && x@ == e,
        None => r matches Ok(pages) && plans_view(pages@) == plans_sorted(plans_view(plans@))
            && strictly_by_path(plans_sorted(plans_view(plans@))),
    },
{
    let ghost pv = plans_view(plans@);
    let n = plans.len();
    let mut rest = plans;
    let mut pages: Vec<PagePlan> = Vec::new();
    let mut i: usize = 0;
    assert(pv.take(0) =~= Seq::<PlanV>::empty());
    assert(path_set(plans_view(pages@)) =~= path_set(pv.take(0)));
    assert(pv.skip(0) =~= pv);
    while rest.len() > 0
        invariant
            i + rest@.len() == n,
            n == pv.len(),
            pv == plans_view(plans@),
            plans_view(rest@) == pv.skip(i as int),
            intake_error(pv, 0) == intake_error(pv, i as int),
            plans_view(pages@) == plans_sorted(pv.take(i as int)),
            strictly_by_path(plans_view(pages@)),
            path_set(plans_view(pages@)) == path_set(pv.take(i as int)),
        decreases rest@.len(),
    {
        let ghost rv = plans_view(rest@);
        assert(rv[0] == rest@[0]@);
        assert(pv[i as int] == rv[0]);
        if rest[0].estimated_chars > PAGE_HARD_LIMIT_CHARS {
            let e = RegistryError::Oversize { chars: rest[0].estimated_chars, path: rest[0].output_path.clone() };
            assert(intake_error(pv, i as int) == Some(e@));
            return Err(e);
        }
        match dup_index(&pages, rest[0].output_path.as_str()) {
            Some(j) => {
                proof {
                    lemma_dup_found(pv, i as int, plans_view(pages@), j as int);
                }
                return Err(RegistryError::DuplicatePath);
            },
            None => {},
        }
        let ghost ps = plans_view(pages@);
        proof {
            lemma_intake_step(pv, i as int, ps);
            assert(intake_error(pv, i as int) == intake_error(pv, i + 1));
        }
        let ghost before = rest@;
        let x = rest.remove(0);
        insert_plan_exec(&mut pages, x);
        proof {
            assert(rest@ =~= before.drop_first());
            assert forall|k: int| 0 <= k < rest@.len() implies #[trigger] plans_view(rest@)[k] == pv.skip(i + 1)[k] by {
                assert(rest@[k] == before[k + 1]);
                assert(plans_view(before)[k + 1] == pv.skip(i as int)[k + 1]);
            }
            assert(plans_view(rest@) =~= pv.skip(i + 1));
        }
        i = i + 1;
    }
    assert(pv.take(i as int) =~= pv);
    Ok(pages)
}


impl PageRegistry {
    /// Register a plan. A page over the limit, a taken output path, or a parent
    /// or neighbour link that does not fit is an error.
    /// Registered pages are kept in path order.
    pub fn build(plans: Vec<PagePlan>) -> (r: Result<PageRegistry, RegistryError>)
        ensures
            match intake_error(plans_view(plans@), 0) {
                Some(e) => r matches Err(x) && x@ == e,
                None => strictly_by_path(plans_sorted(plans_view(plans@))) && match first_nav_error(plans_sorted(plans_view(plans@)), 0) {
                    Some(e) => r matches Err(x) && x@ == e,
                    None => r matches Ok(reg) && reg@ == plans_sorted(plans_view(plans@)),
                },
            },
    {
        match intake(plans) {
            Err(e) => Err(e),
            Ok(pages) => match validate_navigation(&pages) {
                Some(e) => Err(e),
                None => Ok(PageRegistry { pages }),
            },
        }
    }

    /// The registered pages, in path order.
    pub fn pages(&self) -> (r: &[PagePlan])
        ensures
            plans_view(r@) == self@,
    {
        self.pages.as_slice()
    }
}

/// The name of a page kind.
pub fn page_kind_name(kind: PageKind) -> (r: &'static str)
    ensures
        r@ == match kind {
            PageKind::Entry => "entry"@,
            PageKind::Shell => "shell"@,
            PageKind::Leaf => "leaf"@,
            PageKind::PagedIndex => "paged_index"@,
        },
{
    match kind {
        PageKind::Entry => "entry",
        PageKind::Shell => "shell",
        PageKind::Leaf => "leaf",
        PageKind::PagedIndex => "paged_index",
    }
}

} // verus!
