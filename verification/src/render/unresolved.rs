//! The body of `_unresolved.md`: the wikilinks that resolve to nothing,
//! grouped by the page they stand on.
use vstd::prelude::*;
use crate::link::resolver::{opt_str, UnresolvedLink};
use crate::order::{key_eq, lemma_path_trichotomy, path_lt, same_path, same_path_exec, sort_unique, strictly_sorted, Keyed};
use crate::strs::{from_chars, push_all, push_string, sv, to_chars};

verus! {

broadcast use vstd::seq_lib::group_seq_properties;

/// How a link was written: `[[target#heading|alias]]`.
pub open spec fn notation(u: UnresolvedLink) -> Seq<char> {
    "[["@ + u.target@ + (match opt_str(u.heading) {
        Some(h) => "#"@ + h,
        None => ""@,
    }) + (match opt_str(u.alias) {
        Some(a) => "|"@ + a,
        None => ""@,
    }) + "]]"@
}

/// Why a link resolves to nothing: the heading, or the note itself, is missing.
pub open spec fn reason(u: UnresolvedLink) -> Seq<char> {
    if u.heading is Some {
        " — 対象ノート内に見出しが見つからない"@
    } else {
        " — 対象ノートが見つからない"@
    }
}

pub open spec fn item_line(u: UnresolvedLink) -> Seq<char> {
    "- `"@ + notation(u) + "`"@ + reason(u) + "\n"@
}

pub open spec fn item_lines(us: Seq<UnresolvedLink>) -> Seq<char>
    decreases us.len(),
{
    if us.len() == 0 {
        seq![]
    } else {
        item_lines(us.drop_last()) + item_line(us.last())
    }
}

/// The links standing on page `k`, in order.
pub open spec fn group_of(list: Seq<UnresolvedLink>, k: Seq<char>) -> Seq<UnresolvedLink>
    decreases list.len(),
{
    if list.len() == 0 {
        seq![]
    } else if same_path(list.last().source@, k) {
        group_of(list.drop_last(), k).push(list.last())
    } else {
        group_of(list.drop_last(), k)
    }
}

/// The `i`-th link is the first on its page.
pub open spec fn first_on_page(list: Seq<UnresolvedLink>, i: int) -> bool {
    forall|j: int| 0 <= j < i ==> !same_path(#[trigger] list[j].source@, list[i].source@)
}

/// The pages as first written by a link on them.
pub open spec fn page_keys(list: Seq<UnresolvedLink>) -> Set<Seq<char>> {
    Set::new(|k: Seq<char>| exists|i: int| 0 <= i < list.len() && list[i].source@ == k && #[trigger] first_on_page(list, i))
}

/// Strictly increasing in path order.
pub open spec fn paths_strict(keys: Seq<Seq<char>>) -> bool {
    forall|i: int, j: int| 0 <= i < j < keys.len() ==> path_lt(#[trigger] keys[i], #[trigger] keys[j])
}

pub open spec fn group_text(list: Seq<UnresolvedLink>, k: Seq<char>) -> Seq<char> {
    "## `"@ + k + "`\n"@ + "\n"@ + item_lines(group_of(list, k)) + "\n"@
}

pub open spec fn groups_text(list: Seq<UnresolvedLink>, keys: Seq<Seq<char>>) -> Seq<char>
    decreases keys.len(),
{
    if keys.len() == 0 {
        seq![]
    } else {
        groups_text(list, keys.drop_last()) + group_text(list, keys.last())
    }
}

/// The text of `_unresolved.md` with the pages `keys`.
pub open spec fn unresolved_text(list: Seq<UnresolvedLink>, keys: Seq<Seq<char>>) -> Seq<char> {
    "# Unresolved wikilinks\n"@ + "\n"@ + if list.len() == 0 {
        "_(すべての wikilink が解決されました)_\n"@
    } else {
        groups_text(list, keys)
    }
}

fn push_lit(t: &mut Vec<char>, s: &str)
    ensures
        final(t)@ == old(t)@ + s@,
{
    push_all(t, &to_chars(s));
}

fn notation_exec(u: &UnresolvedLink) -> (r: Vec<char>)
    ensures
        r@ == notation(*u),
{
    let mut t = to_chars("[[");
    push_all(&mut t, &to_chars(u.target.as_str()));
    match &u.heading {
        Some(h) => {
            push_lit(&mut t, "#");
            push_all(&mut t, &to_chars(h.as_str()));
        },
        None => push_lit(&mut t, ""),
    }
    match &u.alias {
        Some(a) => {
            push_lit(&mut t, "|");
            push_all(&mut t, &to_chars(a.as_str()));
        },
        None => push_lit(&mut t, ""),
    }
    push_lit(&mut t, "]]");
    assert(t@ =~= notation(*u));
    t
}

fn push_item(t: &mut Vec<char>, u: &UnresolvedLink)
    ensures
        final(t)@ == old(t)@ + item_line(*u),
{
    push_lit(t, "- `");
    push_all(t, &notation_exec(u));
    push_lit(t, "`");
    if u.heading.is_some() {
        push_lit(t, " — 対象ノート内に見出しが見つからない");
    } else {
        push_lit(t, " — 対象ノートが見つからない");
    }
    push_lit(t, "\n");
    assert(final(t)@ =~= old(t)@ + item_line(*u));
}

/// Whether the `i`-th link is the first on its page.
fn is_first_on_page(list: &[UnresolvedLink], i: usize) -> (r: bool)
    requires
        i < list@.len(),
    ensures
        r == first_on_page(list@, i as int),
{
    let mut j: usize = 0;
    while j < i
        invariant
            j <= i < list@.len(),
            forall|m: int| 0 <= m < j ==> !same_path(#[trigger] list@[m].source@, list@[i as int].source@),
        decreases i - j,
    {
        if same_path_exec(list[j].source.as_str(), list[i].source.as_str()) {
            return false;
        }
        j = j + 1;
    }
    true
}

/// The pages, each once as first written, in path order.
fn page_list(list: &[UnresolvedLink]) -> (r: Vec<String>)
    ensures
        paths_strict(sv(r@)),
        sv(r@).to_set() == page_keys(list@),
{
    let mut reps: Vec<String> = Vec::new();
    let ghost mut at: Seq<int> = Seq::empty();
    let mut i: usize = 0;
    while i < list.len()
        invariant
            i <= list@.len(),
            at.len() == reps@.len(),
            forall|a: int| 0 <= a < reps@.len() ==> 0 <= #[trigger] at[a] < i && reps@[a]@ == list@[at[a]].source@ && first_on_page(list@, at[a]),
            forall|a: int, b: int| 0 <= a < b < reps@.len() ==> at[a] < at[b],
            forall|m: int| 0 <= m < i && #[trigger] first_on_page(list@, m) ==> exists|a: int| 0 <= a < reps@.len() && at[a] == m,
        decreases list@.len() - i,
    {
        let ghost old_at = at;
        if is_first_on_page(list, i) {
            reps.push(list[i].source.clone());
            proof {
                at = at.push(i as int);
            }
        }
        proof {
            assert forall|m: int| 0 <= m < i + 1 && #[trigger] first_on_page(list@, m) implies exists|a: int| 0 <= a < reps@.len() && at[a] == m by {
                if m == i {
                    assert(at[at.len() - 1] == m);
                } else {
                    let a = choose|a: int| 0 <= a < old_at.len() && old_at[a] == m;
                    assert(at[a] == old_at[a]);
                }
            }
        }
        i = i + 1;
    }
    // the pages of the kept links are pairwise different
    proof {
        assert forall|a: int, b: int| 0 <= a < reps@.len() && 0 <= b < reps@.len() && a != b implies !same_path(reps@[a]@, reps@[b]@) by {
            if a < b {
                assert(!same_path(list@[at[a]].source@, list@[at[b]].source@));
            } else {
                assert(!same_path(list@[at[b]].source@, list@[at[a]].source@));
                lemma_path_trichotomy(reps@[a]@, reps@[b]@);
                lemma_path_trichotomy(reps@[b]@, reps@[a]@);
            }
        }
    }
    let ghost orig = reps@;
    let (keys, Ghost(w)) = sort_unique(reps);
    proof {
        assert forall|i: int, j: int| 0 <= i < j < sv(keys@).len() implies path_lt(#[trigger] sv(keys@)[i], #[trigger] sv(keys@)[j]) by {
            assert(keys@[i].key_lt(&keys@[j]));
        }
        assert forall|k: Seq<char>| sv(keys@).to_set().contains(k) <==> page_keys(list@).contains(k) by {
            if sv(keys@).to_set().contains(k) {
                let x = choose|x: int| 0 <= x < sv(keys@).len() && sv(keys@)[x] == k;
                assert(orig.contains(keys@[x]));
                let a = choose|a: int| 0 <= a < orig.len() && orig[a] == keys@[x];
                assert(first_on_page(list@, at[a]));
            }
            if page_keys(list@).contains(k) {
                let m = choose|m: int| 0 <= m < list@.len() && list@[m].source@ == k && #[trigger] first_on_page(list@, m);
                let a = choose|a: int| 0 <= a < orig.len() && at[a] == m;
                let x = w[a];
                assert(key_eq(keys@[x], orig[a]));
                assert(orig.contains(keys@[x]));
                let b = choose|b: int| 0 <= b < orig.len() && orig[b] == keys@[x];
                lemma_path_trichotomy(orig[b]@, orig[a]@);
                if b != a {
                    assert(!same_path(orig[b]@, orig[a]@));
                }
                assert(sv(keys@)[x] == k);
            }
        }
    }
    keys
}

/// The body of `_unresolved.md`: the links that resolve to nothing, grouped
/// under the page they stand on, pages in path order and links in their
/// order, each written as it was with why it is unresolved.
pub fn render_unresolved(list: &[UnresolvedLink]) -> (r: String)
    ensures
        exists|keys: Seq<Seq<char>>| paths_strict(keys) && keys.to_set() == page_keys(list@)
            && r@ == #[trigger] unresolved_text(list@, keys),
{
    let mut t = to_chars("# Unresolved wikilinks\n");
    push_lit(&mut t, "\n");
    let ghost head = t@;
    let keys = page_list(list);
    if list.len() == 0 {
        push_lit(&mut t, "_(すべての wikilink が解決されました)_\n");
        let r = from_chars(&t);
        assert(r@ == unresolved_text(list@, sv(keys@)));
        return r;
    }
    let mut k: usize = 0;
    while k < keys.len()
        invariant
            k <= keys@.len(),
            t@ == head + groups_text(list@, sv(keys@).take(k as int)),
        decreases keys@.len() - k,
    {
        assert(sv(keys@).take(k + 1).drop_last() =~= sv(keys@).take(k as int));
        let key = keys[k].as_str();
        let ghost before = t@;
        push_lit(&mut t, "## `");
        push_all(&mut t, &to_chars(key));
        push_lit(&mut t, "`\n");
        push_lit(&mut t, "\n");
        let ghost mid = t@;
        let mut i: usize = 0;
        while i < list.len()
            invariant
                i <= list@.len(),
                t@ == mid + item_lines(group_of(list@.take(i as int), key@)),
            decreases list@.len() - i,
        {
            let ghost pre = list@.take(i as int);
            assert(list@.take(i + 1).drop_last() =~= pre);
            if same_path_exec(list[i].source.as_str(), key) {
                push_item(&mut t, &list[i]);
                assert(group_of(pre, key@).push(list@[i as int]).drop_last() =~= group_of(pre, key@));
            }
            i = i + 1;
        }
        assert(list@.take(list@.len() as int) =~= list@);
        push_lit(&mut t, "\n");
        assert(t@ =~= before + group_text(list@, key@));
        k = k + 1;
    }
    assert(sv(keys@).take(keys@.len() as int) =~= sv(keys@));
    let r = from_chars(&t);
    assert(r@ == unresolved_text(list@, sv(keys@)));
    r
}

} // verus!
