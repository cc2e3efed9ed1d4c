//! Splitting a text into chunks of about 8 KiB at line ends.
use vstd::prelude::*;
use vstd::string::StrSliceExecFns;
use crate::strs::{byte_len, char_len8, char_len8_exec, lemma_byte_len_encode, lemma_byte_len_prefix, lemma_byte_len_take, to_chars};

verus! {

pub const CHUNK_SIZE: usize = 8192;

/// The chunk boundaries from character `k` on: the current chunk starts at
/// `start` and holds `size` bytes so far; `last` is just past the latest line
/// feed. A chunk closes, at `last`, once it reaches `CHUNK_SIZE` bytes.
pub open spec fn chunk_from(t: Seq<char>, k: int, start: int, size: int, last: int) -> Seq<(int, int)>
    decreases t.len() - k,
{
    if k < 0 || k >= t.len() {
        if start < t.len() {
            seq![(start, t.len() as int)]
        } else {
            seq![]
        }
    } else {
        let last2 = if t[k] == '\n' { k + 1 } else { last };
        let size2 = size + char_len8(t[k]);
        if size2 >= CHUNK_SIZE && last2 > start {
            seq![(start, last2)] + chunk_from(t, k + 1, last2, byte_len(t.subrange(last2, k + 1)) as int, last2)
        } else {
            chunk_from(t, k + 1, start, size2, last2)
        }
    }
}

/// The chunks of a text: the whole text when it has at most `CHUNK_SIZE`
/// bytes, else pieces that end at line feeds (the last one excepted).
pub open spec fn chunk_spec(t: Seq<char>) -> Seq<Seq<char>> {
    if byte_len(t) <= CHUNK_SIZE {
        seq![t]
    } else {
        chunk_from(t, 0, 0, 0, 0).map_values(|r: (int, int)| t.subrange(r.0, r.1))
    }
}

proof fn lemma_chunk_from_flatten(t: Seq<char>, k: int, start: int, size: int, last: int)
    requires
        0 <= start <= last <= k <= t.len(),
    ensures
        chunk_from(t, k, start, size, last).map_values(|r: (int, int)| t.subrange(r.0, r.1)).flatten()
            == t.subrange(start, t.len() as int),
        forall|i: int| 0 <= i < chunk_from(t, k, start, size, last).len() ==> {
            let r = #[trigger] chunk_from(t, k, start, size, last)[i];
            start <= r.0 <= r.1 <= t.len()
        },
    decreases t.len() - k,
{
    let rs = chunk_from(t, k, start, size, last);
    let ps = rs.map_values(|r: (int, int)| t.subrange(r.0, r.1));
    if k >= t.len() {
        if start < t.len() {
            assert(ps =~= seq![t.subrange(start, t.len() as int)]);
            assert(ps.drop_first() =~= Seq::<Seq<char>>::empty());
            assert(ps.flatten() =~= t.subrange(start, t.len() as int) + Seq::<Seq<char>>::empty().flatten());
        } else {
            assert(ps =~= Seq::<Seq<char>>::empty());
            assert(t.subrange(start, t.len() as int) =~= Seq::<char>::empty());
        }
    } else {
        let last2 = if t[k] == '\n' { k + 1 } else { last };
        let size2 = size + char_len8(t[k]);
        if size2 >= CHUNK_SIZE && last2 > start {
            let nsize = byte_len(t.subrange(last2, k + 1)) as int;
            lemma_chunk_from_flatten(t, k + 1, last2, nsize, last2);
            let rest = chunk_from(t, k + 1, last2, nsize, last2);
            assert(rs == seq![(start, last2)] + rest);
            assert(ps.drop_first() =~= rest.map_values(|r: (int, int)| t.subrange(r.0, r.1)));
            assert(ps[0] == t.subrange(start, last2));
            assert(t.subrange(start, t.len() as int) =~= t.subrange(start, last2) + t.subrange(last2, t.len() as int));
            assert forall|i: int| 0 <= i < rs.len() implies {
                let r = #[trigger] rs[i];
                start <= r.0 <= r.1 <= t.len()
            } by {
                if i > 0 {
                    assert(rs[i] == rest[i - 1]);
                }
            }
        } else {
            lemma_chunk_from_flatten(t, k + 1, start, size2, last2);
        }
    }
}

/// Law: joining the chunks of a text gives the text back.
pub proof fn lemma_chunks_reconstruct(t: Seq<char>)
    ensures
        chunk_spec(t).flatten() == t,
{
    if byte_len(t) <= CHUNK_SIZE {
        assert(seq![t].drop_first() =~= Seq::<Seq<char>>::empty());
        assert(seq![t].flatten() =~= t + Seq::<Seq<char>>::empty().flatten());
    } else {
        lemma_chunk_from_flatten(t, 0, 0, 0, 0);
        assert(t.subrange(0, t.len() as int) =~= t);
    }
}

/// `byte_len(v[lo..hi])`.
fn bytes_between(v: &[char], lo: usize, hi: usize) -> (n: usize)
    requires
        lo <= hi <= v@.len(),
        byte_len(v@) <= usize::MAX,
    ensures
        n == byte_len(v@.subrange(lo as int, hi as int)),
{
    let mut i = lo;
    let mut n: usize = 0;
    assert(v@.subrange(lo as int, lo as int) =~= Seq::<char>::empty());
    while i < hi
        invariant
            lo <= i <= hi <= v@.len(),
            n == byte_len(v@.subrange(lo as int, i as int)),
            byte_len(v@) <= usize::MAX,
        decreases hi - i,
    {
        proof {
            let s = v@.subrange(lo as int, hi as int);
            lemma_byte_len_take(s, i - lo);
            assert(s.take(i - lo) =~= v@.subrange(lo as int, i as int));
            assert(s.take(i - lo + 1) =~= v@.subrange(lo as int, i + 1));
            assert(v@.subrange(lo as int, i + 1) =~= v@.skip(lo as int).take(i + 1 - lo));
            lemma_byte_len_prefix(v@.skip(lo as int), i + 1 - lo);
            assert(v@ =~= v@.take(lo as int) + v@.skip(lo as int));
            crate::strs::lemma_byte_len_concat(v@.take(lo as int), v@.skip(lo as int));
        }
        n = n + char_len8_exec(v[i]);
        i = i + 1;
    }
    n
}

/// Split a text at line ends into chunks of about CHUNK_SIZE bytes each;
/// no line is cut, so multi-byte characters stay whole.
#[verifier::rlimit(40)]
pub fn chunk(text: &str) -> (r: Vec<&str>)
    ensures
        r@.map_values(|s: &str| s@) == chunk_spec(text@),
{
    proof {
        lemma_byte_len_encode(text@);
    }
    crate::strs::byte_len_fits(text);
    if text.len() <= CHUNK_SIZE {
        let mut one: Vec<&str> = Vec::new();
        one.push(text);
        assert(one@.map_values(|s: &str| s@) =~= seq![text@]);
        return one;
    }
    let v = to_chars(text);
    let n = text.unicode_len();
    assert(n == v@.len());
    let ghost spec_rs = chunk_from(v@, 0, 0, 0, 0);
    let mut chunks: Vec<&str> = Vec::new();
    let mut start: usize = 0;
    let mut size: usize = 0;
    let mut last: usize = 0;
    let mut k: usize = 0;
    proof {
        lemma_chunk_from_flatten(v@, 0, 0, 0, 0);
    }
    while k < v.len()
        invariant
            v@ == text@,
            n == v@.len(),
            byte_len(v@) <= usize::MAX,
            start <= last <= k <= v@.len(),
            size <= byte_len(v@.take(k as int)),
            chunks@.map_values(|s: &str| s@) + chunk_from(v@, k as int, start as int, size as int, last as int)
                .map_values(|r: (int, int)| v@.subrange(r.0, r.1))
                == chunk_from(v@, 0, 0, 0, 0).map_values(|r: (int, int)| v@.subrange(r.0, r.1)),
        decreases v@.len() - k,
    {
        proof {
            lemma_byte_len_take(v@, k as int);
            lemma_byte_len_prefix(v@, k + 1);
        }
        let c = v[k];
        if c == '\n' {
            last = k + 1;
        }
        size = size + char_len8_exec(c);
        let ghost before = chunks@.map_values(|s: &str| s@);
        if size >= CHUNK_SIZE && last > start {
            let piece = text.substring_char(start, last);
            chunks.push(piece);
            let nsize = bytes_between(&v, last, k + 1);
            proof {
                let rest = chunk_from(v@, k + 1, last as int, nsize as int, last as int);
                assert(chunks@.map_values(|s: &str| s@) =~= before.push(v@.subrange(start as int, last as int)));
                let f = |r: (int, int)| v@.subrange(r.0, r.1);
                assert((seq![(start as int, last as int)] + rest).map_values(f) =~= seq![v@.subrange(start as int, last as int)] + rest.map_values(f));
                assert(before.push(v@.subrange(start as int, last as int)) + rest.map_values(f)
                    =~= before + (seq![v@.subrange(start as int, last as int)] + rest.map_values(f)));
                assert(v@.take(k + 1) =~= v@.take(last as int) + v@.subrange(last as int, k + 1));
                crate::strs::lemma_byte_len_concat(v@.take(last as int), v@.subrange(last as int, k + 1));
            }
            start = last;
            size = nsize;
        }
        k = k + 1;
    }
    if start < v.len() {
        let piece = text.substring_char(start, n);
        chunks.push(piece);
    }
    proof {
        let f = |r: (int, int)| v@.subrange(r.0, r.1);
        if start < v@.len() {
            assert(chunk_from(v@, k as int, start as int, size as int, last as int) == seq![(start as int, v@.len() as int)]);
            assert(seq![(start as int, v@.len() as int)].map_values(f) =~= seq![v@.subrange(start as int, v@.len() as int)]);
        } else {
            assert(chunk_from(v@, k as int, start as int, size as int, last as int) == Seq::<(int, int)>::empty());
            assert(Seq::<(int, int)>::empty().map_values(f) =~= Seq::<Seq<char>>::empty());
        }
        assert(chunks@.map_values(|s: &str| s@) =~= chunk_from(v@, 0, 0, 0, 0).map_values(f));
    }
    chunks
}

} // verus!
