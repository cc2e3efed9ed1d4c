//! The files a run produces, before they are written: output paths (under
//! the output root) with their contents, and the manifest that records them.
use vstd::prelude::*;
use crate::order::{lemma_path_lt_trans, lemma_path_trichotomy, path_lt, path_lt_exec, same_path, same_path_exec, text_lt, text_lt_exec};
use crate::paths::components;
use crate::render::unresolved::paths_strict;
use crate::strs::{chars_eq, split_chars, split_on, sv, to_chars, vv};

verus! {

broadcast use vstd::seq_lib::group_seq_properties;

/// The version of the manifest's layout.
pub const MANIFEST_SCHEMA_VERSION: u32 = 1;

// ---------------------------------------------------------------------------
// The plan
// ---------------------------------------------------------------------------

/// Output paths with their contents, in path order, each path once.
pub struct OutputPlan {
    pub entries: Vec<(String, Vec<u8>)>,
}

pub type PlanV = Seq<(Seq<char>, Seq<u8>)>;

impl View for OutputPlan {
    type V = PlanV;

    open spec fn view(&self) -> PlanV {
        self.entries@.map_values(|e: (String, Vec<u8>)| (e.0@, e.1@))
    }
}

pub open spec fn plan_keys(p: PlanV) -> Seq<Seq<char>> {
    p.map_values(|e: (Seq<char>, Seq<u8>)| e.0)
}

impl OutputPlan {
    /// The paths are strictly increasing in path order.
    pub open spec fn wf(&self) -> bool {
        paths_strict(plan_keys(self@))
    }

    pub fn new() -> (r: OutputPlan)
        ensures
            r.wf(),
            r@ == PlanV::empty(),
    {
        let r = OutputPlan { entries: Vec::new() };
        assert(r@ =~= PlanV::empty());
        r
    }
}

/// The contents planned for `k` (paths compared as `Path` compares them).
pub open spec fn plan_get(p: PlanV, k: Seq<char>) -> Option<Seq<u8>>
    decreases p.len(),
{
    if p.len() == 0 {
        None
    } else if same_path(p[0].0, k) {
        Some(p[0].1)
    } else {
        plan_get(p.drop_first(), k)
    }
}

/// The position of `k` in a plan: the first path not below it.
pub open spec fn plan_pos(p: PlanV, k: Seq<char>) -> int
    decreases p.len(),
{
    if p.len() == 0 || !path_lt(p[0].0, k) {
        0
    } else {
        1 + plan_pos(p.drop_first(), k)
    }
}

/// A plan with `body` put at `k`: the contents replaced where the path is
/// planned already (its path kept as first written), else a new entry in
/// its place.
pub open spec fn plan_insert(p: PlanV, k: Seq<char>, body: Seq<u8>) -> PlanV {
    let i = plan_pos(p, k);
    if i < p.len() && same_path(p[i].0, k) {
        p.update(i, (p[i].0, body))
    } else {
        p.take(i) + seq![(k, body)] + p.skip(i)
    }
}

proof fn lemma_plan_pos(p: PlanV, k: Seq<char>)
    ensures
        0 <= plan_pos(p, k) <= p.len(),
        forall|j: int| 0 <= j < plan_pos(p, k) ==> path_lt(#[trigger] p[j].0, k),
        plan_pos(p, k) < p.len() ==> !path_lt(p[plan_pos(p, k)].0, k),
    decreases p.len(),
{
    if p.len() > 0 && path_lt(p[0].0, k) {
        lemma_plan_pos(p.drop_first(), k);
        assert forall|j: int| 0 <= j < plan_pos(p, k) implies path_lt(#[trigger] p[j].0, k) by {
            if j > 0 {
                assert(p[j] == p.drop_first()[j - 1]);
            }
        }
    }
}

proof fn lemma_get_index(p: PlanV, k: Seq<char>, i: int)
    requires
        paths_strict(plan_keys(p)),
        0 <= i < p.len(),
        same_path(p[i].0, k),
    ensures
        plan_get(p, k) == Some(p[i].1),
    decreases p.len(),
{
    if i > 0 {
        assert(!same_path(p[0].0, k)) by {
            assert(path_lt(plan_keys(p)[0], plan_keys(p)[i]));
            lemma_path_trichotomy(p[0].0, p[i].0);
            lemma_path_trichotomy(p[i].0, k);
            if same_path(p[0].0, k) {
                crate::order::lemma_path_lt_same(p[0].0, k, p[i].0, k);
                lemma_path_trichotomy(k, k);
            }
        }
        assert(paths_strict(plan_keys(p.drop_first()))) by {
            assert forall|a: int, b: int| 0 <= a < b < plan_keys(p.drop_first()).len() implies path_lt(#[trigger] plan_keys(p.drop_first())[a], #[trigger] plan_keys(p.drop_first())[b]) by {
                assert(plan_keys(p.drop_first())[a] == plan_keys(p)[a + 1]);
                assert(plan_keys(p.drop_first())[b] == plan_keys(p)[b + 1]);
            }
        }
        lemma_get_index(p.drop_first(), k, i - 1);
    }
}

proof fn lemma_get_absent(p: PlanV, k: Seq<char>)
    requires
        forall|j: int| 0 <= j < p.len() ==> !same_path(#[trigger] p[j].0, k),
    ensures
        plan_get(p, k) is None,
    decreases p.len(),
{
    if p.len() > 0 {
        lemma_get_absent(p.drop_first(), k);
    }
}

proof fn lemma_get_some(p: PlanV, k: Seq<char>)
    ensures
        plan_get(p, k) is Some ==> exists|j: int| 0 <= j < p.len() && same_path(#[trigger] p[j].0, k) && plan_get(p, k) == Some(p[j].1),
    decreases p.len(),
{
    if p.len() > 0 && !same_path(p[0].0, k) {
        lemma_get_some(p.drop_first(), k);
        if plan_get(p, k) is Some {
            let j = choose|j: int| 0 <= j < p.drop_first().len() && same_path(#[trigger] p.drop_first()[j].0, k) && plan_get(p.drop_first(), k) == Some(p.drop_first()[j].1);
            assert(p[j + 1] == p.drop_first()[j]);
        }
    } else if p.len() > 0 {
        assert(same_path(p[0].0, k));
    }
}

/// Law: putting `body` at `k` keeps the plan well formed; afterwards `k`
/// holds `body`, and every path that is not `k` holds what it held before.
pub proof fn lemma_insert_then_get(p: PlanV, k: Seq<char>, body: Seq<u8>, q: Seq<char>)
    requires
        paths_strict(plan_keys(p)),
    ensures
        paths_strict(plan_keys(plan_insert(p, k, body))),
        plan_get(plan_insert(p, k, body), k) == Some(body),
        !same_path(q, k) ==> plan_get(plan_insert(p, k, body), q) == plan_get(p, q),
{
    lemma_plan_pos(p, k);
    let i = plan_pos(p, k);
    if i < p.len() && same_path(p[i].0, k) {
        lemma_insert_existing(p, k, body, q);
    } else {
        lemma_insert_new(p, k, body, q);
    }
}

#[verifier::spinoff_prover]
proof fn lemma_insert_existing(p: PlanV, k: Seq<char>, body: Seq<u8>, q: Seq<char>)
    requires
        paths_strict(plan_keys(p)),
        plan_pos(p, k) < p.len(),
        same_path(p[plan_pos(p, k)].0, k),
    ensures
        paths_strict(plan_keys(plan_insert(p, k, body))),
        plan_get(plan_insert(p, k, body), k) == Some(body),
        !same_path(q, k) ==> plan_get(plan_insert(p, k, body), q) == plan_get(p, q),
{
    lemma_plan_pos(p, k);
    let i = plan_pos(p, k);
    let r = plan_insert(p, k, body);
    lemma_path_trichotomy(k, k);
        assert(plan_keys(r) =~= plan_keys(p));
        lemma_get_index(r, k, i);
        if !same_path(q, k) {
            lemma_get_some(p, q);
            lemma_get_some(r, q);
            if plan_get(p, q) is Some {
                let j = choose|j: int| 0 <= j < p.len() && same_path(#[trigger] p[j].0, q) && plan_get(p, q) == Some(p[j].1);
                if j == i {
                    lemma_same_path_trans(k, p[i].0, q);
                }
                assert(r[j] == p[j]);
                lemma_get_index(r, q, j);
            } else if plan_get(r, q) is Some {
                let j = choose|j: int| 0 <= j < r.len() && same_path(#[trigger] r[j].0, q) && plan_get(r, q) == Some(r[j].1);
                if j == i {
                    lemma_same_path_trans(k, p[i].0, q);
                }
                lemma_get_index(p, q, j);
            }
        }
}

#[verifier::spinoff_prover]
#[verifier::rlimit(30)]
proof fn lemma_insert_new(p: PlanV, k: Seq<char>, body: Seq<u8>, q: Seq<char>)
    requires
        paths_strict(plan_keys(p)),
        !(plan_pos(p, k) < p.len() && same_path(p[plan_pos(p, k)].0, k)),
    ensures
        paths_strict(plan_keys(plan_insert(p, k, body))),
        plan_get(plan_insert(p, k, body), k) == Some(body),
        !same_path(q, k) ==> plan_get(plan_insert(p, k, body), q) == plan_get(p, q),
{
    lemma_plan_pos(p, k);
    let i = plan_pos(p, k);
    let r = plan_insert(p, k, body);
    lemma_path_trichotomy(k, k);
        // the new path is above those before it and below those after it
        assert forall|a: int, b: int| 0 <= a < b < plan_keys(r).len() implies path_lt(#[trigger] plan_keys(r)[a], #[trigger] plan_keys(r)[b]) by {
            let ka = plan_keys(r)[a];
            let kb = plan_keys(r)[b];
            if b < i {
                assert(ka == plan_keys(p)[a] && kb == plan_keys(p)[b]);
            } else if b == i {
                assert(ka == p[a].0 && kb == k);
            } else if a < i {
                assert(ka == p[a].0 && kb == p[b - 1].0);
                lemma_path_trichotomy(p[i].0, k);
                assert(path_lt(k, p[i].0));
                if b - 1 > i {
                    assert(path_lt(plan_keys(p)[i], plan_keys(p)[b - 1]));
                    lemma_path_lt_trans(k, p[i].0, p[b - 1].0);
                }
                lemma_path_lt_trans(p[a].0, k, p[b - 1].0);
            } else if a == i {
                assert(ka == k && kb == p[b - 1].0);
                lemma_path_trichotomy(p[i].0, k);
                if b - 1 > i {
                    assert(path_lt(plan_keys(p)[i], plan_keys(p)[b - 1]));
                    lemma_path_lt_trans(k, p[i].0, p[b - 1].0);
                }
            } else {
                assert(ka == plan_keys(p)[a - 1] && kb == plan_keys(p)[b - 1]);
            }
        }
        assert(r[i] == (k, body));
        lemma_get_index(r, k, i);
        if !same_path(q, k) {
            lemma_get_some(p, q);
            lemma_get_some(r, q);
            if plan_get(p, q) is Some {
                let j = choose|j: int| 0 <= j < p.len() && same_path(#[trigger] p[j].0, q) && plan_get(p, q) == Some(p[j].1);
                let jj = if j < i { j } else { j + 1 };
                assert(r[jj] == p[j]);
                lemma_get_index(r, q, jj);
            } else if plan_get(r, q) is Some {
                let j = choose|j: int| 0 <= j < r.len() && same_path(#[trigger] r[j].0, q) && plan_get(r, q) == Some(r[j].1);
                if j == i {
                    lemma_path_trichotomy(q, k);
                    assert(same_path(k, q));
                }
                let jj = if j < i { j } else { j - 1 };
                assert(p[jj] == r[j]);
                lemma_get_index(p, q, jj);
            }
        }
}

proof fn lemma_same_path_trans(a: Seq<char>, b: Seq<char>, c: Seq<char>)
    requires
        same_path(b, a),
        same_path(b, c),
    ensures
        same_path(a, c),
{
}

/// Put `body` at the output path `rel`, replacing what was planned there.
pub fn insert_bytes(plan: &mut OutputPlan, rel: String, body: Vec<u8>)
    requires
        old(plan).wf(),
    ensures
        final(plan).wf(),
        final(plan)@ == plan_insert(old(plan)@, rel@, body@),
{
    let ghost p = plan@;
    proof {
        lemma_plan_pos(p, rel@);
        lemma_insert_then_get(p, rel@, body@, rel@);
    }
    let mut i: usize = 0;
    assert(p.skip(0) =~= p);
    while i < plan.entries.len() && path_lt_exec(plan.entries[i].0.as_str(), rel.as_str())
        invariant
            i <= plan.entries@.len(),
            p == plan@,
            plan_pos(p, rel@) == i + plan_pos(p.skip(i as int), rel@),
        decreases plan.entries@.len() - i,
    {
        assert(p.skip(i as int)[0] == p[i as int]);
        assert(p.skip(i as int).drop_first() =~= p.skip(i + 1));
        i = i + 1;
    }
    proof {
        if i < p.len() {
            assert(p.skip(i as int)[0] == p[i as int]);
        }
    }
    assert(plan_pos(p, rel@) == i);
    if i < plan.entries.len() && same_path_exec(plan.entries[i].0.as_str(), rel.as_str()) {
        let key = plan.entries[i].0.clone();
        plan.entries.set(i, (key, body));
        assert(plan@ =~= p.update(i as int, (p[i as int].0, body@)));
    } else {
        plan.entries.insert(i, (rel, body));
        assert(plan@ =~= p.take(i as int) + seq![(rel@, body@)] + p.skip(i as int));
    }
}

/// Put a text at the output path `rel`, as its UTF-8 bytes.
pub fn insert_text(plan: &mut OutputPlan, rel: String, body: &str)
    requires
        old(plan).wf(),
    ensures
        final(plan).wf(),
        final(plan)@ == plan_insert(old(plan)@, rel@, vstd::utf8::encode_utf8(body@)),
{
    let bytes = vstd::slice::slice_to_vec(body.as_bytes());
    insert_bytes(plan, rel, bytes);
}

// ---------------------------------------------------------------------------
// Hashes
// ---------------------------------------------------------------------------

/// 64-bit FNV-1a of the bytes: from the offset basis, for each byte, xor it
/// in, then multiply by the FNV prime, modulo 2^64.
pub open spec fn fnv1a(bytes: Seq<u8>) -> u64
    decreases bytes.len(),
{
    if bytes.len() == 0 {
        0xcbf29ce484222325u64
    } else {
        let h = fnv1a(bytes.drop_last()) ^ (bytes.last() as u64);
        ((h as nat * 0x100000001b3nat) % 0x10000000000000000nat) as u64
    }
}

/// A lower-case hexadecimal digit.
pub open spec fn hex_digit(d: u64) -> char {
    if d < 10 { ((d + 48) as u8) as char } else { ((d + 87) as u8) as char }
}

/// The 16 hexadecimal digits of `h`, zero-padded, most significant first.
pub open spec fn hex16(h: u64) -> Seq<char> {
    Seq::new(16, |i: int| hex_digit((h >> ((60 - 4 * i) as u64)) & 0xf))
}

fn hex_digit_exec(d: u64) -> (c: char)
    requires
        d < 16,
    ensures
        c == hex_digit(d),
{
    if d < 10 {
        ((d + 48) as u8) as char
    } else {
        ((d + 87) as u8) as char
    }
}

/// The content hash recorded in the manifest: 64-bit FNV-1a, as 16
/// lower-case hexadecimal digits.
pub fn stable_hash(bytes: &[u8]) -> (r: String)
    ensures
        r@ == hex16(fnv1a(bytes@)),
{
    let mut h: u64 = 0xcbf29ce484222325u64;
    let mut i: usize = 0;
    while i < bytes.len()
        invariant
            i <= bytes@.len(),
            h == fnv1a(bytes@.take(i as int)),
        decreases bytes@.len() - i,
    {
        assert(bytes@.take(i + 1).drop_last() =~= bytes@.take(i as int));
        assert(bytes@.take(i + 1).last() == bytes@[i as int]);
        h = h ^ (bytes[i] as u64);
        h = h.wrapping_mul(0x100000001b3u64);
        i = i + 1;
    }
    assert(bytes@.take(bytes@.len() as int) =~= bytes@);
    let mut out: Vec<char> = Vec::new();
    let mut k: u64 = 0;
    while k < 16
        invariant
            k <= 16,
            out@ =~= hex16(h).take(k as int),
        decreases 16 - k,
    {
        let sh: u64 = 60 - 4 * k;
        let x: u64 = h >> sh;
        let d: u64 = x & 0xf;
        assert(d < 16) by (bit_vector)
            requires d == x & 0xf;
        out.push(hex_digit_exec(d));
        assert(hex16(h)[k as int] == hex_digit(d));
        assert(out@ =~= hex16(h).take(k + 1));
        k = k + 1;
    }
    crate::strs::from_chars(&out)
}

// ---------------------------------------------------------------------------
// Hash tables in text order
// ---------------------------------------------------------------------------

pub type TextPairs = Seq<(Seq<char>, Seq<char>)>;

pub open spec fn pairs_view(v: Seq<(String, String)>) -> TextPairs {
    v.map_values(|e: (String, String)| (e.0@, e.1@))
}

/// Where `x` goes among pairs in text order of their keys: after every pair
/// whose key is not above its own.
pub open spec fn text_pos(s: TextPairs, x: (Seq<char>, Seq<char>)) -> int
    decreases s.len(),
{
    if s.len() == 0 || text_lt(x.0, s[0].0) {
        0
    } else {
        1 + text_pos(s.drop_first(), x)
    }
}

/// Pairs sorted by key text, pairs with equal keys in their order.
pub open spec fn sort_by_text(ps: TextPairs) -> TextPairs
    decreases ps.len(),
{
    if ps.len() == 0 {
        seq![]
    } else {
        let r = sort_by_text(ps.drop_last());
        let i = text_pos(r, ps.last());
        r.take(i) + seq![ps.last()] + r.skip(i)
    }
}

proof fn lemma_text_pos(s: TextPairs, x: (Seq<char>, Seq<char>))
    ensures
        0 <= text_pos(s, x) <= s.len(),
    decreases s.len(),
{
    if s.len() > 0 && !text_lt(x.0, s[0].0) {
        lemma_text_pos(s.drop_first(), x);
    }
}

fn insert_by_text(v: &mut Vec<(String, String)>, x: (String, String))
    ensures
        pairs_view(final(v)@) == ({
            let s = pairs_view(old(v)@);
            let i = text_pos(s, (x.0@, x.1@));
            s.take(i) + seq![(x.0@, x.1@)] + s.skip(i)
        }),
{
    let ghost s = pairs_view(v@);
    let ghost xv = (x.0@, x.1@);
    proof {
        lemma_text_pos(s, xv);
    }
    let xk = to_chars(x.0.as_str());
    let mut k: usize = 0;
    assert(s.skip(0) =~= s);
    while k < v.len() && !text_lt_exec(&xk, &to_chars(v[k].0.as_str()))
        invariant
            k <= v@.len(),
            s == pairs_view(v@),
            xv == (x.0@, x.1@),
            xk@ == x.0@,
            text_pos(s, xv) == k + text_pos(s.skip(k as int), xv),
        decreases v@.len() - k,
    {
        assert(s.skip(k as int)[0] == s[k as int]);
        assert(s.skip(k as int).drop_first() =~= s.skip(k + 1));
        k = k + 1;
    }
    proof {
        if k < v@.len() {
            assert(s.skip(k as int)[0] == s[k as int]);
        }
    }
    assert(text_pos(s, xv) == k);
    v.insert(k, x);
    assert(pairs_view(v@) =~= s.take(k as int) + seq![xv] + s.skip(k as int));
}

/// The hash of each planned file, by output path in text order.
pub open spec fn plan_hash_pairs(p: PlanV) -> TextPairs {
    sort_by_text(p.map_values(|e: (Seq<char>, Seq<u8>)| (e.0, hex16(fnv1a(e.1)))))
}

/// The hash of each planned file, by output path in text order.
pub fn plan_hashes(plan: &OutputPlan) -> (r: Vec<(String, String)>)
    ensures
        pairs_view(r@) == plan_hash_pairs(plan@),
{
    let ghost all = plan@.map_values(|e: (Seq<char>, Seq<u8>)| (e.0, hex16(fnv1a(e.1))));
    let mut out: Vec<(String, String)> = Vec::new();
    let mut i: usize = 0;
    while i < plan.entries.len()
        invariant
            i <= plan.entries@.len(),
            all == plan@.map_values(|e: (Seq<char>, Seq<u8>)| (e.0, hex16(fnv1a(e.1)))),
            pairs_view(out@) == sort_by_text(all.take(i as int)),
        decreases plan.entries@.len() - i,
    {
        assert(all.take(i + 1).drop_last() =~= all.take(i as int));
        let e = &plan.entries[i];
        let h = stable_hash(e.1.as_slice());
        assert(all.take(i + 1).last() == (e.0@, h@));
        insert_by_text(&mut out, (e.0.clone(), h));
        i = i + 1;
    }
    assert(all.take(plan.entries@.len() as int) =~= all);
    out
}

// ---------------------------------------------------------------------------
// Paths a manifest may name
// ---------------------------------------------------------------------------

/// A generated path a manifest may name: not empty, relative, and made of
/// plain names only (no `.` at its start, no `..` anywhere).
pub open spec fn valid_output_path(p: Seq<char>) -> bool {
    let segs = split_on(p, '/');
    &&& p.len() > 0
    &&& p[0] != '/'
    &&& segs[0] != seq!['.']
    &&& forall|i: int| 0 <= i < segs.len() ==> #[trigger] segs[i] != seq!['.', '.']
}

/// The message for a generated path a manifest may not name.
pub open spec fn invalid_path_message(p: Seq<char>) -> Seq<char> {
    if p.len() == 0 {
        "invalid generated output path in manifest: empty path"@
    } else {
        "invalid generated output path in manifest: "@ + p
    }
}

/// Check a generated path named by a manifest.
pub fn validate_relative_output_path(path: &str) -> (r: Result<(), String>)
    ensures
        r is Ok <==> valid_output_path(path@),
        r matches Err(m) ==> m@ == invalid_path_message(path@),
{
    let v = to_chars(path);
    if v.len() == 0 {
        return Err(crate::strs::from_chars(&to_chars("invalid generated output path in manifest: empty path")));
    }
    let segs = split_chars(&v, '/');
    assert(vv(&segs).len() == segs@.len());
    assert(split_on(path@, '/').len() > 0);
    let dot = ['.'];
    let dotdot = ['.', '.'];
    assert(dot@ =~= seq!['.']);
    assert(dotdot@ =~= seq!['.', '.']);
    let ok = v[0] != '/' && !chars_eq(&segs[0], &dot);
    let mut bad = false;
    let mut i: usize = 0;
    while i < segs.len()
        invariant
            i <= segs@.len(),
            vv(&segs) == split_on(path@, '/'),
            vv(&segs).len() == segs@.len(),
            dotdot@ == seq!['.', '.'],
            bad <==> exists|m: int| 0 <= m < i && #[trigger] vv(&segs)[m] == seq!['.', '.'],
        decreases segs@.len() - i,
    {
        if chars_eq(&segs[i], &dotdot) {
            bad = true;
            assert(vv(&segs)[i as int] == seq!['.', '.']);
        }
        i = i + 1;
    }
    if ok && !bad {
        Ok(())
    } else {
        let mut m = to_chars("invalid generated output path in manifest: ");
        crate::strs::push_all(&mut m, &v);
        Err(crate::strs::from_chars(&m))
    }
}

// ---------------------------------------------------------------------------
// The manifest
// ---------------------------------------------------------------------------

/// Whether the input was one file or a directory.
#[derive(Debug, Clone, Copy, PartialEq, Eq, Structural)]
pub enum ManifestInputKind {
    File,
    Directory,
}

/// The schema pack a run used, and the hash of its contents.
#[derive(Debug, Clone)]
pub struct ManifestSchema {
    pub path: String,
    pub hash: String,
}

/// What a run records under the output root: its input, the hash of each
/// source, and the hash of each file it generated (both by path, in text order).
#[derive(Debug, Clone)]
pub struct Manifest {
    pub schema_version: u32,
    pub tool_version: String,
    pub input_kind: ManifestInputKind,
    pub input_root: String,
    pub input_path: String,
    pub recursive: bool,
    pub schema: Option<ManifestSchema>,
    pub source_hashes: Vec<(String, String)>,
    pub generated_file_hashes: Vec<(String, String)>,
}

impl Manifest {
    /// The manifest of a run that produced `plan`.
    pub fn new(
        input_kind: ManifestInputKind,
        input_root: &str,
        input_path: &str,
        recursive: bool,
        schema: Option<ManifestSchema>,
        source_hashes: Vec<(String, String)>,
        plan: &OutputPlan,
        tool_version: &str,
    ) -> (r: Manifest)
        ensures
            r.schema_version == MANIFEST_SCHEMA_VERSION,
            r.tool_version@ == tool_version@,
            r.input_kind == input_kind,
            r.input_root@ == input_root@,
            r.input_path@ == input_path@,
            r.recursive == recursive,
            r.schema == schema,
            r.source_hashes == source_hashes,
            pairs_view(r.generated_file_hashes@) == plan_hash_pairs(plan@),
    {
        Manifest {
            schema_version: MANIFEST_SCHEMA_VERSION,
            tool_version: crate::strs::from_chars(&to_chars(tool_version)),
            input_kind,
            input_root: crate::strs::from_chars(&to_chars(input_root)),
            input_path: crate::strs::from_chars(&to_chars(input_path)),
            recursive,
            schema,
            source_hashes,
            generated_file_hashes: plan_hashes(plan),
        }
    }
}

/// The first key that is not a path a manifest may name.
pub open spec fn first_invalid(keys: Seq<Seq<char>>) -> Option<Seq<char>>
    decreases keys.len(),
{
    if keys.len() == 0 {
        None
    } else if !valid_output_path(keys[0]) {
        Some(keys[0])
    } else {
        first_invalid(keys.drop_first())
    }
}

/// Check every generated path a manifest names: the first that is not a
/// plain relative path is an error.
pub fn validate_manifest_generated_paths(manifest: &Manifest) -> (r: Result<(), String>)
    ensures
        match first_invalid(pairs_view(manifest.generated_file_hashes@).map_values(|e: (Seq<char>, Seq<char>)| e.0)) {
            Some(k) => r matches Err(m) && m@ == invalid_path_message(k),
            None => r is Ok,
        },
{
    let ghost keys = pairs_view(manifest.generated_file_hashes@).map_values(|e: (Seq<char>, Seq<char>)| e.0);
    let mut i: usize = 0;
    assert(keys.skip(0) =~= keys);
    while i < manifest.generated_file_hashes.len()
        invariant
            i <= manifest.generated_file_hashes@.len(),
            keys == pairs_view(manifest.generated_file_hashes@).map_values(|e: (Seq<char>, Seq<char>)| e.0),
            first_invalid(keys) == first_invalid(keys.skip(i as int)),
        decreases manifest.generated_file_hashes@.len() - i,
    {
        let ghost rest = keys.skip(i as int);
        assert(rest[0] == manifest.generated_file_hashes@[i as int].0@);
        assert(rest.drop_first() =~= keys.skip(i + 1));
        match validate_relative_output_path(manifest.generated_file_hashes[i].0.as_str()) {
            Ok(()) => {},
            Err(m) => return Err(m),
        }
        i = i + 1;
    }
    assert(keys.skip(i as int) =~= Seq::<Seq<char>>::empty());
    Ok(())
}

/// The message for a manifest of another layout version.
pub open spec fn version_message(v: u32) -> Seq<char> {
    "unsupported md-wiki manifest schema version: "@ + crate::num::decimal(v as nat)
}

/// Check a manifest that was read back: its layout version, then the
/// paths it names.
pub fn validate_manifest(manifest: &Manifest) -> (r: Result<(), String>)
    ensures
        manifest.schema_version != MANIFEST_SCHEMA_VERSION ==> (r matches Err(m) && m@ == version_message(manifest.schema_version)),
        manifest.schema_version == MANIFEST_SCHEMA_VERSION ==> match first_invalid(pairs_view(manifest.generated_file_hashes@).map_values(|e: (Seq<char>, Seq<char>)| e.0)) {
            Some(k) => r matches Err(m) && m@ == invalid_path_message(k),
            None => r is Ok,
        },
{
    if manifest.schema_version != MANIFEST_SCHEMA_VERSION {
        let mut m = to_chars("unsupported md-wiki manifest schema version: ");
        crate::strs::push_all(&mut m, &crate::num::decimal_chars(manifest.schema_version as usize));
        return Err(crate::strs::from_chars(&m));
    }
    validate_manifest_generated_paths(manifest)
}

/// The message for a schema pack that changed.
pub open spec fn schema_changed_message(path: Seq<char>) -> Seq<char> {
    "schema pack changed since init/add: "@ + path + "; rerun add with --schema to update schema artifacts"@
}

/// Check that the schema pack a manifest records is unchanged: `current_hash`
/// is the hash of its contents now.
pub fn validate_manifest_schema(schema: &ManifestSchema, current_hash: &str) -> (r: Result<(), String>)
    ensures
        r is Ok <==> schema.hash@ == current_hash@,
        r matches Err(m) ==> m@ == schema_changed_message(schema.path@),
{
    if chars_eq(&to_chars(schema.hash.as_str()), &to_chars(current_hash)) {
        Ok(())
    } else {
        let mut m = to_chars("schema pack changed since init/add: ");
        crate::strs::push_all(&mut m, &to_chars(schema.path.as_str()));
        crate::strs::push_all(&mut m, &to_chars("; rerun add with --schema to update schema artifacts"));
        Err(crate::strs::from_chars(&m))
    }
}

// ---------------------------------------------------------------------------
// Updating an earlier output
// ---------------------------------------------------------------------------

/// Whether the plan holds a file at `k` (paths compared as `Path` compares them).
pub fn plan_contains(plan: &OutputPlan, k: &str) -> (r: bool)
    ensures
        r == plan_get(plan@, k@) is Some,
{
    let mut i: usize = 0;
    assert(plan@.skip(0) =~= plan@);
    while i < plan.entries.len()
        invariant
            i <= plan@.len(),
            plan@.len() == plan.entries@.len(),
            plan_get(plan@, k@) == plan_get(plan@.skip(i as int), k@),
        decreases plan@.len() - i,
    {
        let ghost rest = plan@.skip(i as int);
        assert(rest[0].0 == plan.entries@[i as int].0@);
        assert(rest.drop_first() =~= plan@.skip(i + 1));
        if same_path_exec(plan.entries[i].0.as_str(), k) {
            return true;
        }
        i = i + 1;
    }
    assert(plan@.skip(i as int) =~= PlanV::empty());
    false
}

/// The paths of `keys` that the plan no longer holds, in their order.
pub open spec fn stale_keys(keys: Seq<Seq<char>>, p: PlanV) -> Seq<Seq<char>>
    decreases keys.len(),
{
    if keys.len() == 0 {
        seq![]
    } else if plan_get(p, keys.last()) is None {
        stale_keys(keys.drop_last(), p).push(keys.last())
    } else {
        stale_keys(keys.drop_last(), p)
    }
}

/// The files an earlier run generated that the new plan no longer holds,
/// and that an update removes, in the earlier manifest's order. The first
/// path of the manifest that is not a plain relative path is an error.
pub fn stale_paths(plan: &OutputPlan, previous: &Manifest) -> (r: Result<Vec<String>, String>)
    ensures
        match first_invalid(pairs_view(previous.generated_file_hashes@).map_values(|e: (Seq<char>, Seq<char>)| e.0)) {
            Some(k) => r matches Err(m) && m@ == invalid_path_message(k),
            None => r matches Ok(v) && sv(v@) == stale_keys(
                pairs_view(previous.generated_file_hashes@).map_values(|e: (Seq<char>, Seq<char>)| e.0),
                plan@,
            ),
        },
{
    match validate_manifest_generated_paths(previous) {
        Err(m) => return Err(m),
        Ok(()) => {},
    }
    let ghost keys = pairs_view(previous.generated_file_hashes@).map_values(|e: (Seq<char>, Seq<char>)| e.0);
    let mut out: Vec<String> = Vec::new();
    let mut i: usize = 0;
    assert(keys.take(0) =~= Seq::<Seq<char>>::empty());
    while i < previous.generated_file_hashes.len()
        invariant
            i <= previous.generated_file_hashes@.len(),
            keys == pairs_view(previous.generated_file_hashes@).map_values(|e: (Seq<char>, Seq<char>)| e.0),
            sv(out@) == stale_keys(keys.take(i as int), plan@),
        decreases previous.generated_file_hashes@.len() - i,
    {
        let k = &previous.generated_file_hashes[i].0;
        proof {
            assert(keys.take(i + 1).drop_last() =~= keys.take(i as int));
            assert(keys.take(i + 1).last() == k@);
        }
        if !plan_contains(plan, k.as_str()) {
            crate::strs::push_string(&mut out, k.clone());
        }
        i = i + 1;
    }
    assert(keys.take(keys.len() as int) =~= keys);
    Ok(out)
}

// ---------------------------------------------------------------------------
// Clearing an earlier output
// ---------------------------------------------------------------------------

pub open spec fn not_dir_message(out: Seq<char>) -> Seq<char> {
    "output path exists but is not a directory: "@ + out
}

pub open spec fn not_ours_message(out: Seq<char>) -> Seq<char> {
    "refusing to clean "@ + out
        + ": does not look like a md-wiki output directory (no manifest, index.md, or fragments/). Remove it manually or choose a different --out."@
}

/// Whether an existing output directory is cleared before a run writes it:
/// a path that does not exist or an empty directory is written as it is
/// (`Ok(false)`); a directory that holds a manifest, an `index.md` or a
/// `fragments/` is cleared (`Ok(true)`); anything else is refused, so that a
/// directory that is not an earlier output is never removed.
pub fn clear_decision(
    out: &str,
    exists: bool,
    is_dir: bool,
    is_empty: bool,
    has_manifest: bool,
    has_index: bool,
    has_fragments: bool,
) -> (r: Result<bool, String>)
    ensures
        !exists ==> r == Ok::<bool, String>(false),
        exists && !is_dir ==> (r matches Err(m) && m@ == not_dir_message(out@)),
        exists && is_dir && is_empty ==> r == Ok::<bool, String>(false),
        exists && is_dir && !is_empty && (has_manifest || has_index || has_fragments) ==> r == Ok::<bool, String>(true),
        exists && is_dir && !is_empty && !(has_manifest || has_index || has_fragments) ==> (r matches Err(m) && m@ == not_ours_message(out@)),
{
    if !exists {
        return Ok(false);
    }
    if !is_dir {
        let mut m = to_chars("output path exists but is not a directory: ");
        crate::strs::push_all(&mut m, &to_chars(out));
        return Err(crate::strs::from_chars(&m));
    }
    if is_empty {
        return Ok(false);
    }
    if has_manifest || has_index || has_fragments {
        return Ok(true);
    }
    let mut m = to_chars("refusing to clean ");
    crate::strs::push_all(&mut m, &to_chars(out));
    crate::strs::push_all(&mut m, &to_chars(": does not look like a md-wiki output directory (no manifest, index.md, or fragments/). Remove it manually or choose a different --out."));
    Err(crate::strs::from_chars(&m))
}


// ---------------------------------------------------------------------------
// Writing over an earlier output
// ---------------------------------------------------------------------------

/// The generated paths an earlier manifest records.
pub open spec fn recorded_keys(m: &Manifest) -> Seq<Seq<char>> {
    pairs_view(m.generated_file_hashes@).map_values(|e: (Seq<char>, Seq<char>)| e.0)
}

/// Whether the earlier manifest records a generated file at exactly `rel`.
pub fn manifest_records(previous: &Manifest, rel: &str) -> (r: bool)
    ensures
        r == recorded_keys(previous).contains(rel@),
{
    let ghost keys = recorded_keys(previous);
    let rv = to_chars(rel);
    let mut i: usize = 0;
    while i < previous.generated_file_hashes.len()
        invariant
            i <= previous.generated_file_hashes@.len(),
            keys == recorded_keys(previous),
            keys.len() == previous.generated_file_hashes@.len(),
            rv@ == rel@,
            forall|j: int| 0 <= j < i ==> keys[j] != rel@,
        decreases previous.generated_file_hashes@.len() - i,
    {
        let k = to_chars(previous.generated_file_hashes[i].0.as_str());
        assert(keys[i as int] == previous.generated_file_hashes@[i as int].0@);
        if crate::strs::chars_eq(&k, &rv) {
            return true;
        }
        i = i + 1;
    }
    proof {
        if keys.contains(rel@) {
            let j = choose|j: int| 0 <= j < keys.len() && keys[j] == rel@;
            assert(keys[j] != rel@);
        }
    }
    false
}

pub open spec fn unmanaged_message(abs: Seq<char>) -> Seq<char> {
    "refusing to overwrite unmanaged file in output: "@ + abs
}

pub open spec fn symlink_message(abs: Seq<char>) -> Seq<char> {
    "refusing to follow symlink output path: "@ + abs
}

pub open spec fn non_file_message(abs: Seq<char>) -> Seq<char> {
    "refusing to overwrite non-file output path: "@ + abs
}

/// Whether an update may write the planned file `rel` (shown as `abs`) over
/// what stands there: nothing, or a regular file that the earlier run
/// generated. A file the earlier run did not generate, a symlink, or a
/// directory is refused, so that an update never overwrites what is not its own.
pub fn overwrite_decision(
    abs: &str,
    rel: &str,
    previous: &Manifest,
    exists: bool,
    is_symlink: bool,
    is_file: bool,
) -> (r: Result<(), String>)
    ensures
        !exists ==> r is Ok,
        exists && !recorded_keys(previous).contains(rel@) ==> (r matches Err(m) && m@ == unmanaged_message(abs@)),
        exists && recorded_keys(previous).contains(rel@) && is_symlink ==> (r matches Err(m) && m@ == symlink_message(abs@)),
        exists && recorded_keys(previous).contains(rel@) && !is_symlink && !is_file ==> (r matches Err(m) && m@ == non_file_message(abs@)),
        exists && recorded_keys(previous).contains(rel@) && !is_symlink && is_file ==> r is Ok,
{
    if !exists {
        return Ok(());
    }
    let (head, ok) = if !manifest_records(previous, rel) {
        ("refusing to overwrite unmanaged file in output: ", false)
    } else if is_symlink {
        ("refusing to follow symlink output path: ", false)
    } else if !is_file {
        ("refusing to overwrite non-file output path: ", false)
    } else {
        ("", true)
    };
    if ok {
        return Ok(());
    }
    proof {
        reveal_strlit("refusing to overwrite unmanaged file in output: ");
        reveal_strlit("refusing to follow symlink output path: ");
        reveal_strlit("refusing to overwrite non-file output path: ");
    }
    let mut m = to_chars(head);
    crate::strs::push_all(&mut m, &to_chars(abs));
    Err(crate::strs::from_chars(&m))
}

pub open spec fn remove_dir_message(abs: Seq<char>) -> Seq<char> {
    "refusing to remove managed output path that is not a file: "@ + abs
}

/// Whether an update removes a stale generated path (shown as `abs`):
/// `Ok(true)` where something other than a directory stands there,
/// `Ok(false)` where nothing does; a directory is refused.
pub fn removal_decision(abs: &str, exists: bool, is_dir: bool) -> (r: Result<bool, String>)
    ensures
        !exists ==> r == Ok::<bool, String>(false),
        exists && !is_dir ==> r == Ok::<bool, String>(true),
        exists && is_dir ==> (r matches Err(m) && m@ == remove_dir_message(abs@)),
{
    if !exists {
        return Ok(false);
    }
    if !is_dir {
        return Ok(true);
    }
    let mut m = to_chars("refusing to remove managed output path that is not a file: ");
    crate::strs::push_all(&mut m, &to_chars(abs));
    Err(crate::strs::from_chars(&m))
}

} // verus!
