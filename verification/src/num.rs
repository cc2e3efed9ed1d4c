//! Decimal rendering of counters and the "first free numbered name" rule
//! used for slugs and output paths.
use vstd::prelude::*;
use vstd::set_lib::*;
use crate::strs::{chars_eq, push_all, vv};

verus! {

pub open spec fn digit(d: nat) -> char
    recommends
        d < 10,
{
    ((d + 48) as u8) as char
}

/// Decimal digits of `n` (no leading zeros).
pub open spec fn decimal(n: nat) -> Seq<char>
    decreases n,
{
    if n < 10 {
        seq![digit(n)]
    } else {
        decimal(n / 10) + seq![digit(n % 10)]
    }
}

/// `n` left-padded with zeros to at least `w` digits (`{:0w}`).
pub open spec fn zero_pad(s: Seq<char>, w: nat) -> Seq<char> {
    if s.len() >= w {
        s
    } else {
        Seq::new((w - s.len()) as nat, |i: int| '0') + s
    }
}

pub proof fn lemma_decimal_len(n: nat)
    ensures
        decimal(n).len() >= 1,
    decreases n,
{
    if n >= 10 {
        lemma_decimal_len(n / 10);
    }
}

pub proof fn lemma_digit_injective(a: nat, b: nat)
    requires
        a < 10,
        b < 10,
        digit(a) == digit(b),
    ensures
        a == b,
{
    assert(((a + 48) as u8) as char == ((b + 48) as u8) as char);
    assert((((a + 48) as u8) as char) as u32 == (a + 48));
    assert((((b + 48) as u8) as char) as u32 == (b + 48));
}

/// The decimal form of a positive number does not start with `0`.
pub proof fn lemma_decimal_lead(n: nat)
    requires
        n >= 1,
    ensures
        decimal(n)[0] != '0',
    decreases n,
{
    lemma_decimal_len(n);
    if n < 10 {
        if digit(n) == '0' {
            assert(digit(0) == '0');
            lemma_digit_injective(n, 0);
        }
    } else {
        lemma_decimal_len(n / 10);
        lemma_decimal_lead(n / 10);
        assert(decimal(n)[0] == decimal(n / 10)[0]);
    }
}

/// Distinct numbers have distinct zero-padded decimal forms.
pub proof fn lemma_padded_injective(a: nat, b: nat, w: nat)
    requires
        zero_pad(decimal(a), w) == zero_pad(decimal(b), w),
    ensures
        a == b,
{
    let da = decimal(a);
    let db = decimal(b);
    lemma_decimal_len(a);
    lemma_decimal_len(b);
    let pa = zero_pad(da, w);
    let pb = zero_pad(db, w);
    if da.len() == db.len() {
        assert(da =~= pa.subrange(pa.len() - da.len(), pa.len() as int));
        assert(db =~= pb.subrange(pb.len() - db.len(), pb.len() as int));
        lemma_decimal_injective(a, b);
    } else if da.len() < db.len() {
        assert(b >= 10);
        lemma_decimal_lead(b);
        let k = w - db.len();
        assert(pb[k] == db[0]);
        assert(pa[k] == '0');
    } else {
        assert(a >= 10);
        lemma_decimal_lead(a);
        let k = w - da.len();
        assert(pa[k] == da[0]);
        assert(pb[k] == '0');
    }
}

/// Distinct numbers have distinct decimal forms.
pub proof fn lemma_decimal_injective(a: nat, b: nat)
    requires
        decimal(a) == decimal(b),
    ensures
        a == b,
    decreases a + b,
{
    if a < 10 && b < 10 {
        assert(decimal(a)[0] == digit(a));
        assert(decimal(b)[0] == digit(b));
        lemma_digit_injective(a, b);
    } else if a < 10 {
        lemma_decimal_len(b / 10);
        assert(decimal(b).len() >= 2);
    } else if b < 10 {
        lemma_decimal_len(a / 10);
        assert(decimal(a).len() >= 2);
    } else {
        let da = decimal(a / 10);
        let db = decimal(b / 10);
        assert(decimal(a).drop_last() =~= da);
        assert(decimal(b).drop_last() =~= db);
        lemma_decimal_injective(a / 10, b / 10);
        assert(decimal(a).last() == digit(a % 10));
        assert(decimal(b).last() == digit(b % 10));
        lemma_digit_injective(a % 10, b % 10);
    }
}

fn digit_exec(d: usize) -> (c: char)
    requires
        d < 10,
    ensures
        c == digit(d as nat),
{
    let b: u8 = (d + 48) as u8;
    b as char
}

/// Decimal digits of `n`.
pub fn decimal_chars(n: usize) -> (r: Vec<char>)
    ensures
        r@ == decimal(n as nat),
    decreases n,
{
    if n < 10 {
        let mut r = Vec::new();
        r.push(digit_exec(n));
        r
    } else {
        let mut r = decimal_chars(n / 10);
        r.push(digit_exec(n % 10));
        r
    }
}

/// Decimal digits of `n`, left-padded with zeros to `w` digits.
pub fn zero_pad_chars(n: usize, w: usize) -> (r: Vec<char>)
    ensures
        r@ == zero_pad(decimal(n as nat), w as nat),
{
    let mut r = decimal_chars(n);
    while r.len() < w
        invariant
            zero_pad(r@, w as nat) == zero_pad(decimal(n as nat), w as nat),
        decreases w - r@.len(),
    {
        let mut z: Vec<char> = Vec::new();
        z.push('0');
        push_all(&mut z, &r);
        assert(Seq::new((w - z@.len()) as nat, |i: int| '0') + z@ =~= Seq::new((w - r@.len()) as nat, |i: int| '0') + r@);
        r = z;
    }
    r
}

// ---------------------------------------------------------------------------
// First free numbered name
// ---------------------------------------------------------------------------

/// `prefix + n + suffix`.
pub open spec fn numbered(prefix: Seq<char>, n: nat, suffix: Seq<char>) -> Seq<char> {
    prefix + decimal(n) + suffix
}

pub proof fn lemma_numbered_injective(prefix: Seq<char>, a: nat, b: nat, suffix: Seq<char>)
    requires
        numbered(prefix, a, suffix) == numbered(prefix, b, suffix),
    ensures
        a == b,
{
    let x = numbered(prefix, a, suffix);
    let y = numbered(prefix, b, suffix);
    assert(x.len() == y.len());
    assert(decimal(a).len() == decimal(b).len());
    assert(x.subrange(prefix.len() as int, (prefix.len() + decimal(a).len()) as int) =~= decimal(a));
    assert(y.subrange(prefix.len() as int, (prefix.len() + decimal(b).len()) as int) =~= decimal(b));
    lemma_decimal_injective(a, b);
}

/// `n >= 1` is the least number whose name is free.
pub open spec fn is_first_free(prefix: Seq<char>, suffix: Seq<char>, used: Set<Seq<char>>, n: nat) -> bool {
    &&& n >= 1
    &&& !used.contains(numbered(prefix, n, suffix))
    &&& forall|m: nat| 1 <= m < n ==> used.contains(#[trigger] numbered(prefix, m, suffix))
}

/// The least `n >= 1` such that `prefix + n + suffix` is not used.
pub open spec fn first_free(prefix: Seq<char>, suffix: Seq<char>, used: Set<Seq<char>>) -> nat {
    choose|n: nat| is_first_free(prefix, suffix, used, n)
}

/// Is `x` one of the texts of `used`?
pub fn contains_chars(used: &Vec<Vec<char>>, x: &[char]) -> (b: bool)
    ensures
        b == vv(used).contains(x@),
{
    let mut i: usize = 0;
    while i < used.len()
        invariant
            i <= used@.len(),
            forall|k: int| 0 <= k < i ==> vv(used)[k] != x@,
        decreases used@.len() - i,
    {
        if chars_eq(&used[i], x) {
            assert(vv(used)[i as int] == x@);
            return true;
        }
        i = i + 1;
    }
    false
}

proof fn lemma_pigeonhole(prefix: Seq<char>, suffix: Seq<char>, used: Seq<Seq<char>>, k: nat)
    requires
        forall|m: nat| 1 <= m <= k ==> used.contains(#[trigger] numbered(prefix, m, suffix)),
    ensures
        k <= used.len(),
{
    let cands = Seq::new(k, |i: int| numbered(prefix, (i + 1) as nat, suffix));
    assert(cands.no_duplicates()) by {
        assert forall|i: int, j: int| 0 <= i < cands.len() && 0 <= j < cands.len() && i != j
            implies cands[i] != cands[j] by {
            if cands[i] == cands[j] {
                lemma_numbered_injective(prefix, (i + 1) as nat, (j + 1) as nat, suffix);
            }
        }
    }
    cands.unique_seq_to_set();
    used.lemma_cardinality_of_set();
    assert(cands.to_set().subset_of(used.to_set())) by {
        assert forall|x: Seq<char>| cands.to_set().contains(x) implies used.to_set().contains(x) by {
            let i = choose|i: int| 0 <= i < cands.len() && cands[i] == x;
            assert(numbered(prefix, (i + 1) as nat, suffix) == x);
            assert(used.contains(numbered(prefix, (i + 1) as nat, suffix)));
        }
    }
    lemma_len_subset(cands.to_set(), used.to_set());
}

/// The least `n >= 1` whose numbered name is not in `used`, and that name.
pub fn first_free_name(prefix: &[char], suffix: &[char], used: &Vec<Vec<char>>) -> (r: (usize, Vec<char>))
    requires
        used@.len() < usize::MAX,
    ensures
        is_first_free(prefix@, suffix@, vv(used).to_set(), r.0 as nat),
        r.0 as nat == first_free(prefix@, suffix@, vv(used).to_set()),
        r.1@ == numbered(prefix@, r.0 as nat, suffix@),
{
    let mut n: usize = 1;
    loop
        invariant
            1 <= n <= used@.len() + 1,
            used@.len() < usize::MAX,
            forall|m: nat| 1 <= m < n ==> vv(used).contains(#[trigger] numbered(prefix@, m, suffix@)),
        decreases used@.len() + 1 - n,
    {
        let mut cand: Vec<char> = slice_to_vec_chars(prefix);
        push_all(&mut cand, &decimal_chars(n));
        push_all(&mut cand, suffix);
        if !contains_chars(used, &cand) {
            proof {
                let s = vv(used).to_set();
                assert forall|m: nat| 1 <= m < n implies s.contains(#[trigger] numbered(prefix@, m, suffix@)) by {
                    assert(vv(used).contains(numbered(prefix@, m, suffix@)));
                }
                assert(!s.contains(cand@));
                assert(is_first_free(prefix@, suffix@, s, n as nat));
                let w = first_free(prefix@, suffix@, s);
                assert(is_first_free(prefix@, suffix@, s, w));
                assert(w == n) by {
                    if w < n {
                        assert(s.contains(numbered(prefix@, w, suffix@)));
                    } else if w > n {
                        assert(s.contains(numbered(prefix@, n as nat, suffix@)));
                    }
                }
            }
            return (n, cand);
        }
        proof {
            assert(vv(used).contains(numbered(prefix@, n as nat, suffix@)));
            lemma_pigeonhole(prefix@, suffix@, vv(used), n as nat);
        }
        n = n + 1;
    }
}

fn slice_to_vec_chars(s: &[char]) -> (r: Vec<char>)
    ensures
        r@ == s@,
{
    vstd::slice::slice_to_vec(s)
}

proof fn lemma_set_pigeonhole(prefix: Seq<char>, suffix: Seq<char>, used: Set<Seq<char>>, k: nat)
    requires
        used.finite(),
        forall|m: nat| 1 <= m <= k ==> used.contains(#[trigger] numbered(prefix, m, suffix)),
    ensures
        k <= used.len(),
{
    let cands = Seq::new(k, |i: int| numbered(prefix, (i + 1) as nat, suffix));
    assert(cands.no_duplicates()) by {
        assert forall|i: int, j: int| 0 <= i < cands.len() && 0 <= j < cands.len() && i != j
            implies cands[i] != cands[j] by {
            if cands[i] == cands[j] {
                lemma_numbered_injective(prefix, (i + 1) as nat, (j + 1) as nat, suffix);
            }
        }
    }
    cands.unique_seq_to_set();
    assert(cands.to_set().subset_of(used)) by {
        assert forall|x: Seq<char>| cands.to_set().contains(x) implies used.contains(x) by {
            let i = choose|i: int| 0 <= i < cands.len() && cands[i] == x;
            assert(numbered(prefix, (i + 1) as nat, suffix) == x);
        }
    }
    lemma_len_subset(cands.to_set(), used);
}

proof fn lemma_first_free_from(prefix: Seq<char>, suffix: Seq<char>, used: Set<Seq<char>>, n: nat)
    requires
        used.finite(),
        n >= 1,
        forall|m: nat| 1 <= m < n ==> used.contains(#[trigger] numbered(prefix, m, suffix)),
    ensures
        exists|w: nat| is_first_free(prefix, suffix, used, w),
    decreases used.len() + 1 - n,
{
    if !used.contains(numbered(prefix, n, suffix)) {
        assert(is_first_free(prefix, suffix, used, n));
    } else {
        lemma_set_pigeonhole(prefix, suffix, used, n);
        lemma_first_free_from(prefix, suffix, used, n + 1);
    }
}

/// Every finite set of names leaves a least free number.
pub proof fn lemma_first_free_exists(prefix: Seq<char>, suffix: Seq<char>, used: Set<Seq<char>>)
    requires
        used.finite(),
    ensures
        is_first_free(prefix, suffix, used, first_free(prefix, suffix, used)),
{
    lemma_first_free_from(prefix, suffix, used, 1);
}

} // verus!
