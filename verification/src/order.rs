//! Orders on texts and paths, and a verified stable selection sort.
//!
//! Texts compare as `str` does (code point by code point); paths compare as
//! `Path` does, component by component.
use vstd::prelude::*;
use vstd::multiset::Multiset;
use crate::paths::{components, components_exec};
use crate::strs::{to_chars, vv};

verus! {

broadcast use vstd::seq_lib::group_seq_properties, vstd::seq_lib::group_to_multiset_ensures;

// ---------------------------------------------------------------------------
// Lexicographic order on texts
// ---------------------------------------------------------------------------

/// `a < b` as `str` orders them.
pub open spec fn text_lt(a: Seq<char>, b: Seq<char>) -> bool
    decreases a.len(),
{
    if a.len() == 0 {
        b.len() > 0
    } else if b.len() == 0 {
        false
    } else if a[0] < b[0] {
        true
    } else if a[0] == b[0] {
        text_lt(a.drop_first(), b.drop_first())
    } else {
        false
    }
}

pub proof fn lemma_text_lt_irrefl(a: Seq<char>)
    ensures
        !text_lt(a, a),
    decreases a.len(),
{
    if a.len() > 0 {
        lemma_text_lt_irrefl(a.drop_first());
    }
}

pub proof fn lemma_text_lt_trans(a: Seq<char>, b: Seq<char>, c: Seq<char>)
    requires
        text_lt(a, b),
        text_lt(b, c),
    ensures
        text_lt(a, c),
    decreases a.len(),
{
    if a.len() > 0 && b.len() > 0 && c.len() > 0 && a[0] == b[0] && b[0] == c[0] {
        lemma_text_lt_trans(a.drop_first(), b.drop_first(), c.drop_first());
    }
}

pub proof fn lemma_text_lt_total(a: Seq<char>, b: Seq<char>)
    ensures
        a == b || text_lt(a, b) || text_lt(b, a),
    decreases a.len(),
{
    if a.len() > 0 && b.len() > 0 && a[0] == b[0] {
        lemma_text_lt_total(a.drop_first(), b.drop_first());
        if a.drop_first() == b.drop_first() {
            assert(a =~= seq![a[0]] + a.drop_first());
            assert(b =~= seq![b[0]] + b.drop_first());
        }
    } else if a.len() > 0 && b.len() > 0 {
    } else if a.len() == 0 && b.len() == 0 {
        assert(a =~= b);
    }
}

/// `a < b` for texts.
pub fn text_lt_exec(a: &[char], b: &[char]) -> (r: bool)
    ensures
        r == text_lt(a@, b@),
{
    let mut i: usize = 0;
    while i < a.len() && i < b.len() && a[i] == b[i]
        invariant
            i <= a@.len(),
            i <= b@.len(),
            text_lt(a@, b@) == text_lt(a@.skip(i as int), b@.skip(i as int)),
        decreases a@.len() - i,
    {
        assert(a@.skip(i as int).drop_first() =~= a@.skip(i + 1));
        assert(b@.skip(i as int).drop_first() =~= b@.skip(i + 1));
        i = i + 1;
    }
    if i == a.len() {
        i < b.len()
    } else if i == b.len() {
        false
    } else {
        a[i] < b[i]
    }
}

// ---------------------------------------------------------------------------
// Component-wise order on paths
// ---------------------------------------------------------------------------

/// Lexicographic order on component sequences.
pub open spec fn comps_lt(a: Seq<Seq<char>>, b: Seq<Seq<char>>) -> bool
    decreases a.len(),
{
    if a.len() == 0 {
        b.len() > 0
    } else if b.len() == 0 {
        false
    } else if text_lt(a[0], b[0]) {
        true
    } else if a[0] == b[0] {
        comps_lt(a.drop_first(), b.drop_first())
    } else {
        false
    }
}

/// `a < b` as `Path` orders them.
#[verifier::opaque]
pub open spec fn path_lt(a: Seq<char>, b: Seq<char>) -> bool {
    comps_lt(components(a), components(b))
}

pub proof fn lemma_path_lt_irrefl(a: Seq<char>)
    ensures
        !path_lt(a, a),
{
    reveal(path_lt);
    lemma_comps_lt_irrefl(components(a));
}

pub proof fn lemma_path_lt_asym(a: Seq<char>, b: Seq<char>)
    ensures
        !(path_lt(a, b) && path_lt(b, a)),
{
    reveal(path_lt);
    if comps_lt(components(a), components(b)) && comps_lt(components(b), components(a)) {
        lemma_comps_lt_trans(components(a), components(b), components(a));
        lemma_comps_lt_irrefl(components(a));
    }
}

/// `a <= b <= c` implies `a <= c`, where `x <= y` is `!path_lt(y, x)`.
pub proof fn lemma_path_le_trans(a: Seq<char>, b: Seq<char>, c: Seq<char>)
    requires
        !path_lt(b, a),
        !path_lt(c, b),
    ensures
        !path_lt(c, a),
{
    reveal(path_lt);
    let (ca, cb, cc) = (components(a), components(b), components(c));
    if comps_lt(cc, ca) {
        lemma_comps_lt_total(cc, cb);
        if comps_lt(cb, cc) {
            lemma_comps_lt_trans(cb, cc, ca);
        }
    }
}

/// Two paths with the same components (`Path` equality).
pub open spec fn same_path(a: Seq<char>, b: Seq<char>) -> bool {
    components(a) == components(b)
}

/// Paths compare one way, the other, or are the same path.
pub proof fn lemma_path_trichotomy(a: Seq<char>, b: Seq<char>)
    ensures
        path_lt(a, b) || path_lt(b, a) || same_path(a, b),
        same_path(a, b) ==> !path_lt(a, b) && !path_lt(b, a),
{
    reveal(path_lt);
    lemma_comps_lt_total(components(a), components(b));
    lemma_comps_lt_irrefl(components(a));
}

pub proof fn lemma_path_lt_trans(a: Seq<char>, b: Seq<char>, c: Seq<char>)
    requires
        path_lt(a, b),
        path_lt(b, c),
    ensures
        path_lt(a, c),
{
    reveal(path_lt);
    lemma_comps_lt_trans(components(a), components(b), components(c));
}

/// `path_lt` only looks at components.
pub proof fn lemma_path_lt_same(a: Seq<char>, a2: Seq<char>, b: Seq<char>, b2: Seq<char>)
    requires
        same_path(a, a2),
        same_path(b, b2),
    ensures
        path_lt(a, b) == path_lt(a2, b2),
{
    reveal(path_lt);
}

/// `Path` equality of two texts.
pub fn same_path_exec(a: &str, b: &str) -> (r: bool)
    ensures
        r == same_path(a@, b@),
{
    proof {
        lemma_path_trichotomy(a@, b@);
    }
    !path_lt_exec(a, b) && !path_lt_exec(b, a)
}

pub proof fn lemma_comps_lt_irrefl(a: Seq<Seq<char>>)
    ensures
        !comps_lt(a, a),
    decreases a.len(),
{
    if a.len() > 0 {
        lemma_text_lt_irrefl(a[0]);
        lemma_comps_lt_irrefl(a.drop_first());
    }
}

pub proof fn lemma_comps_lt_trans(a: Seq<Seq<char>>, b: Seq<Seq<char>>, c: Seq<Seq<char>>)
    requires
        comps_lt(a, b),
        comps_lt(b, c),
    ensures
        comps_lt(a, c),
    decreases a.len(),
{
    if a.len() > 0 && b.len() > 0 && c.len() > 0 {
        if text_lt(a[0], b[0]) && text_lt(b[0], c[0]) {
            lemma_text_lt_trans(a[0], b[0], c[0]);
        } else if a[0] == b[0] && b[0] == c[0] {
            lemma_comps_lt_trans(a.drop_first(), b.drop_first(), c.drop_first());
        }
    }
}

pub proof fn lemma_comps_lt_total(a: Seq<Seq<char>>, b: Seq<Seq<char>>)
    ensures
        a == b || comps_lt(a, b) || comps_lt(b, a),
    decreases a.len(),
{
    if a.len() > 0 && b.len() > 0 {
        lemma_text_lt_total(a[0], b[0]);
        if a[0] == b[0] {
            lemma_comps_lt_total(a.drop_first(), b.drop_first());
            if a.drop_first() == b.drop_first() {
                assert(a =~= seq![a[0]] + a.drop_first());
                assert(b =~= seq![b[0]] + b.drop_first());
            }
        }
    } else if a.len() == 0 && b.len() == 0 {
        assert(a =~= b);
    }
}

pub fn comps_lt_exec(a: &Vec<Vec<char>>, b: &Vec<Vec<char>>) -> (r: bool)
    ensures
        r == comps_lt(vv(a), vv(b)),
{
    let mut i: usize = 0;
    while i < a.len() && i < b.len() && crate::strs::chars_eq(&a[i], &b[i])
        invariant
            i <= a@.len(),
            i <= b@.len(),
            comps_lt(vv(a), vv(b)) == comps_lt(vv(a).skip(i as int), vv(b).skip(i as int)),
        decreases a@.len() - i,
    {
        proof {
            lemma_text_lt_irrefl(vv(a)[i as int]);
        }
        assert(vv(a).skip(i as int).drop_first() =~= vv(a).skip(i + 1));
        assert(vv(b).skip(i as int).drop_first() =~= vv(b).skip(i + 1));
        i = i + 1;
    }
    if i == a.len() {
        i < b.len()
    } else if i == b.len() {
        false
    } else {
        text_lt_exec(&a[i], &b[i])
    }
}

/// `a < b` for paths.
pub fn path_lt_exec(a: &str, b: &str) -> (r: bool)
    ensures
        r == path_lt(a@, b@),
{
    reveal(path_lt);
    let ca = components_exec(&to_chars(a));
    let cb = components_exec(&to_chars(b));
    comps_lt_exec(&ca, &cb)
}

// ---------------------------------------------------------------------------
// Sorting
// ---------------------------------------------------------------------------

/// A total preorder that the selection sort below orders by.
pub trait Keyed: Sized {
    spec fn key_lt(&self, other: &Self) -> bool;

    fn lt(&self, other: &Self) -> (r: bool)
        ensures
            r == self.key_lt(other),
    ;

    proof fn lemma_asym(a: &Self, b: &Self)
        ensures
            !(a.key_lt(b) && b.key_lt(a)),
    ;

    proof fn lemma_neg_trans(a: &Self, b: &Self, c: &Self)
        requires
            !b.key_lt(a),
            !c.key_lt(b),
        ensures
            !c.key_lt(a),
    ;
}

/// Non-decreasing in the order of `Keyed`.
pub open spec fn sorted_by_key<T: Keyed>(s: Seq<T>) -> bool {
    forall|i: int, j: int| #![trigger s[i], s[j]] 0 <= i < j < s.len() ==> !s[j].key_lt(&s[i])
}

/// Index of the first least item of `v` (stable choice).
fn min_index<T: Keyed>(v: &Vec<T>) -> (m: usize)
    requires
        v@.len() > 0,
    ensures
        m < v@.len(),
        forall|k: int| 0 <= k < v@.len() ==> !(#[trigger] v@[k]).key_lt(&v@[m as int]),
{
    let mut m: usize = 0;
    let mut i: usize = 1;
    proof {
        T::lemma_asym(&v@[0], &v@[0]);
    }
    while i < v.len()
        invariant
            v@.len() > 0,
            m < i <= v@.len(),
            forall|k: int| 0 <= k < i ==> !(#[trigger] v@[k]).key_lt(&v@[m as int]),
        decreases v@.len() - i,
    {
        if v[i].lt(&v[m]) {
            proof {
                assert forall|k: int| 0 <= k < i + 1 implies !(#[trigger] v@[k]).key_lt(&v@[i as int]) by {
                    if k < i {
                        // v[k] >= v[m] > v[i]
                        T::lemma_asym(&v@[i as int], &v@[m as int]);
                        T::lemma_neg_trans(&v@[i as int], &v@[m as int], &v@[k]);
                    } else {
                        T::lemma_asym(&v@[i as int], &v@[i as int]);
                    }
                }
            }
            m = i;
        }
        i = i + 1;
    }
    m
}

/// Sort items by their key, keeping the order of items with equal keys.
pub fn sort_by_key<T: Keyed>(v: Vec<T>) -> (r: Vec<T>)
    ensures
        sorted_by_key(r@),
        r@.to_multiset() == v@.to_multiset(),
{
    let mut rest = v;
    let mut out: Vec<T> = Vec::new();
    let ghost orig = rest@;
    assert(out@ + rest@ =~= orig);
    while rest.len() > 0
        invariant
            sorted_by_key(out@),
            out@.to_multiset().add(rest@.to_multiset()) == orig.to_multiset(),
            forall|i: int, k: int| #![trigger rest@[k], out@[i]] 0 <= i && i < out@.len() && 0 <= k < rest@.len() ==> !rest@[k].key_lt(&out@[i]),
        decreases rest@.len(),
    {
        let m = min_index(&rest);
        let ghost before_rest = rest@;
        let ghost before_out = out@;
        let x = rest.remove(m);
        proof {
            assert(rest@ =~= before_rest.remove(m as int));
            assert forall|k: int| 0 <= k < rest@.len() implies !(#[trigger] rest@[k]).key_lt(&x) by {
                if k < m {
                    assert(rest@[k] == before_rest[k]);
                } else {
                    assert(rest@[k] == before_rest[k + 1]);
                }
            }
        }
        out.push(x);
        proof {
            assert(out@ =~= before_out.push(x));
            assert(out@.to_multiset() =~= before_out.to_multiset().insert(x));
            assert(rest@.to_multiset() =~= before_rest.to_multiset().remove(x));
            assert(before_rest.to_multiset().count(x) > 0) by {
                assert(before_rest.contains(x));
            }
            assert(out@.to_multiset().add(rest@.to_multiset()) =~= orig.to_multiset());
            assert forall|i: int, j: int| #![trigger out@[i], out@[j]] 0 <= i < j < out@.len() implies !out@[j].key_lt(&out@[i]) by {
                if j == out@.len() - 1 {
                    assert(before_rest[m as int] == x);
                } else {
                }
            }
            assert forall|i: int, k: int| #![trigger rest@[k], out@[i]] 0 <= i && i < out@.len() && 0 <= k < rest@.len() implies !rest@[k].key_lt(&out@[i]) by {
                if i == out@.len() - 1 {
                } else {
                    if k < m {
                        assert(rest@[k] == before_rest[k]);
                    } else {
                        assert(rest@[k] == before_rest[k + 1]);
                    }
                }
            }
        }
    }
    assert(rest@.to_multiset() =~= Multiset::<T>::empty());
    assert(out@.to_multiset().add(Multiset::<T>::empty()) =~= out@.to_multiset());
    out
}

/// Strictly increasing in the order of `Keyed`.
pub open spec fn strictly_sorted<T: Keyed>(s: Seq<T>) -> bool {
    forall|i: int, j: int| #![trigger s[i], s[j]] 0 <= i < j < s.len() ==> s[i].key_lt(&s[j])
}

/// Equal in the order of `Keyed`: neither is below the other.
pub open spec fn key_eq<T: Keyed>(a: T, b: T) -> bool {
    !a.key_lt(&b) && !b.key_lt(&a)
}

proof fn lemma_push_strict<T: Keyed>(out: Seq<T>, x: T)
    requires
        strictly_sorted(out),
        out.len() > 0 ==> out.last().key_lt(&x),
    ensures
        strictly_sorted(out.push(x)),
{
    let o = out.push(x);
    assert forall|i: int, j: int| #![trigger o[i], o[j]] 0 <= i < j < o.len() implies o[i].key_lt(&o[j]) by {
        if j == o.len() - 1 && i < j - 1 {
            let l = out.last();
            assert(o[i] == out[i]);
            assert(out[i].key_lt(&out[out.len() - 1]));
            T::lemma_asym(&out[i], &l);
            if !out[i].key_lt(&x) {
                T::lemma_neg_trans(&x, &out[i], &l);
            }
        }
    }
}

/// Of each run of items with equal keys in a sorted vector, keep the first.
/// The second result maps each item of `v` to the kept item of its key.
pub fn dedup_sorted<T: Keyed>(v: Vec<T>) -> (r: (Vec<T>, Ghost<Seq<int>>))
    requires
        sorted_by_key(v@),
    ensures
        strictly_sorted(r.0@),
        forall|i: int| 0 <= i < r.0@.len() ==> v@.contains(#[trigger] r.0@[i]),
        r.1@.len() == v@.len(),
        forall|i: int| #![trigger r.1@[i]] 0 <= i < v@.len() ==> 0 <= r.1@[i] < r.0@.len() && key_eq(r.0@[r.1@[i]], v@[i]),
{
    let mut rest = v;
    let n = rest.len();
    let ghost orig = rest@;
    let ghost mut wit: Seq<int> = Seq::empty();
    let mut out: Vec<T> = Vec::new();
    let mut taken: usize = 0;
    while rest.len() > 0
        invariant
            orig.len() <= usize::MAX,
            taken + rest@.len() == orig.len(),
            rest@ == orig.skip(taken as int),
            sorted_by_key(orig),
            strictly_sorted(out@),
            forall|i: int| 0 <= i < out@.len() ==> orig.contains(#[trigger] out@[i]),
            wit.len() == taken,
            forall|i: int| #![trigger wit[i]] 0 <= i < taken ==> 0 <= wit[i] < out@.len() && key_eq(out@[wit[i]], orig[i]),
            taken > 0 ==> out@.len() > 0 && key_eq(out@.last(), orig[taken - 1]),
            taken == 0 ==> out@.len() == 0,
        decreases rest@.len(),
    {
        let x = rest.remove(0);
        assert(x == orig[taken as int]);
        assert(rest@ =~= orig.skip(taken + 1));
        let keep = if out.len() == 0 {
            true
        } else {
            out[out.len() - 1].lt(&x)
        };
        if keep {
            proof {
                lemma_push_strict(out@, x);
                assert(orig.contains(x)) by { assert(orig[taken as int] == x); }
                T::lemma_asym(&x, &x);
            }
            let ghost before = out@;
            out.push(x);
            proof {
                wit = wit.push(before.len() as int);
                assert forall|i: int| #![trigger wit[i]] 0 <= i < taken + 1 implies 0 <= wit[i] < out@.len() && key_eq(out@[wit[i]], orig[i]) by {
                    if i < taken {
                        assert(out@[wit[i]] == before[wit[i]]);
                    }
                }
            }
        } else {
            proof {
                let l = out@.last();
                assert(!orig[taken as int].key_lt(&orig[taken - 1]));
                T::lemma_neg_trans(&l, &orig[taken - 1], &x);
                wit = wit.push(out@.len() - 1);
            }
        }
        taken = taken + 1;
    }
    (out, Ghost(wit))
}

/// Two sequences with the same multiset hold the same items.
pub proof fn lemma_same_items<T>(s: Seq<T>, f: Seq<T>)
    requires
        s.to_multiset() == f.to_multiset(),
    ensures
        forall|x: T| s.contains(x) <==> f.contains(x),
{
    s.to_multiset_ensures();
    f.to_multiset_ensures();
    assert forall|x: T| s.contains(x) <==> f.contains(x) by {
        assert(s.contains(x) <==> s.to_multiset().count(x) > 0);
        assert(f.contains(x) <==> f.to_multiset().count(x) > 0);
        assert(s.to_multiset().count(x) == f.to_multiset().count(x));
    }
}

/// Sort and keep one item of each key: the result is strictly increasing and
/// holds only items of `v`; the second result maps each item of `v` to the
/// kept item of its key.
pub fn sort_unique<T: Keyed>(v: Vec<T>) -> (r: (Vec<T>, Ghost<Seq<int>>))
    ensures
        strictly_sorted(r.0@),
        forall|i: int| 0 <= i < r.0@.len() ==> v@.contains(#[trigger] r.0@[i]),
        r.1@.len() == v@.len(),
        forall|i: int| #![trigger r.1@[i]] 0 <= i < v@.len() ==> 0 <= r.1@[i] < r.0@.len() && key_eq(r.0@[r.1@[i]], v@[i]),
{
    let ghost f = v@;
    let sorted = sort_by_key(v);
    let ghost s = sorted@;
    proof {
        lemma_same_items(s, f);
    }
    let (r, Ghost(w)) = dedup_sorted(sorted);
    let ghost wf = Seq::new(f.len(), |i: int| w[choose|m: int| 0 <= m && m < s.len() && s[m] == f[i]]);
    proof {
        assert forall|i: int| 0 <= i < r@.len() implies f.contains(#[trigger] r@[i]) by {
            assert(s.contains(r@[i]));
        }
        assert forall|i: int| #![trigger wf[i]] 0 <= i < f.len() implies 0 <= wf[i] < r@.len() && key_eq(r@[wf[i]], f[i]) by {
            assert(f.contains(f[i]));
            assert(s.contains(f[i]));
            let m = choose|m: int| 0 <= m && m < s.len() && s[m] == f[i];
            assert(w[m] == w[m]);
        }
    }
    (r, Ghost(wf))
}

impl Keyed for String {
    open spec fn key_lt(&self, other: &Self) -> bool {
        path_lt(self@, other@)
    }

    fn lt(&self, other: &Self) -> (r: bool) {
        path_lt_exec(self.as_str(), other.as_str())
    }

    proof fn lemma_asym(a: &Self, b: &Self) {
        lemma_path_lt_asym(a@, b@);
    }

    proof fn lemma_neg_trans(a: &Self, b: &Self, c: &Self) {
        lemma_path_le_trans(a@, b@, c@);
    }
}

} // verus!
