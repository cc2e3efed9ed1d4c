//! Reading a large Markdown input as physical lines: where each line starts
//! and ends in the bytes, how many characters it has, what kind of line its
//! start looks like, and where a line too long for one page may be cut.
use vstd::prelude::*;
use vstd::utf8::{decode_utf8, valid_utf8};
use crate::large_markdown::{classify_line, classify_line_spec, LineKindHint, LineRecord, LineScanReport, ScannedLine, BYTE_WINDOW_CHAR_TARGET};
use crate::num::{decimal, decimal_chars};
use crate::strs::{byte_len, char_len8, char_len8_exec, from_chars, lemma_byte_len_concat, lemma_byte_len_encode, lemma_byte_len_take, lemma_byte_len_prefix, push_all, to_chars};

verus! {

/// How many bytes of a line's start are kept to tell its kind.
pub const LINE_PREFIX_BYTES: usize = 8192;

/// A line record as plain values.
pub struct LineRecordV {
    pub byte_start: u64,
    pub byte_end: u64,
    pub line_number: u64,
    pub char_count: u32,
    pub kind_hint: LineKindHint,
    pub safe_split_offsets: Seq<u64>,
}

pub open spec fn record_view(r: LineRecord) -> LineRecordV {
    LineRecordV {
        byte_start: r.byte_start,
        byte_end: r.byte_end,
        line_number: r.line_number,
        char_count: r.char_count,
        kind_hint: r.kind_hint,
        safe_split_offsets: r.safe_split_offsets@,
    }
}

pub open spec fn scanned_view(l: ScannedLine) -> (LineRecordV, Seq<char>) {
    (record_view(l.record), l.prefix@)
}

/// Where the line that starts at `i` ends: just after its `'\n'`, or at the
/// end of the bytes.
pub open spec fn line_end(b: Seq<u8>, i: int) -> int
    decreases b.len() - i,
{
    if i >= b.len() {
        b.len() as int
    } else if b[i] == 10u8 {
        i + 1
    } else {
        line_end(b, i + 1)
    }
}

pub proof fn lemma_line_end(b: Seq<u8>, i: int)
    requires
        0 <= i < b.len(),
    ensures
        i < line_end(b, i) <= b.len(),
        forall|k: int| i <= k < line_end(b, i) - 1 ==> b[k] != 10u8,
        line_end(b, i) < b.len() ==> b[line_end(b, i) - 1] == 10u8,
    decreases b.len() - i,
{
    if b[i] == 10u8 {
    } else if i + 1 < b.len() {
        lemma_line_end(b, i + 1);
    } else {
        assert(line_end(b, i + 1) == b.len());
    }
}

/// The start of a line that is kept to tell its kind: its characters in
/// order, each taken while the kept part still fits in `LINE_PREFIX_BYTES`
/// bytes of UTF-8 (a character that does not fit is passed over).
pub open spec fn kept_prefix(t: Seq<char>, k: int) -> Seq<char>
    decreases k,
{
    if k <= 0 {
        seq![]
    } else {
        let p = kept_prefix(t, k - 1);
        if byte_len(p) + char_len8(t[k - 1]) <= LINE_PREFIX_BYTES {
            p.push(t[k - 1])
        } else {
            p
        }
    }
}

/// The byte offsets (from `start`, the line's first byte) of every
/// `BYTE_WINDOW_CHAR_TARGET`-th character of the line after the first.
pub open spec fn split_offsets(t: Seq<char>, start: int, k: int) -> Seq<u64>
    decreases k,
{
    if k <= 0 {
        seq![]
    } else {
        split_offsets(t, start, k - 1) + if k - 1 > 0 && (k - 1) % (BYTE_WINDOW_CHAR_TARGET as int) == 0 {
            seq![(start + byte_len(t.take(k - 1))) as u64]
        } else {
            seq![]
        }
    }
}

/// The record of the line of `b` from `s` to `e`, numbered `n`, with the
/// start of it that tells its kind.
pub open spec fn line_of(b: Seq<u8>, s: int, e: int, n: int) -> (LineRecordV, Seq<char>) {
    let t = decode_utf8(b.subrange(s, e));
    let p = kept_prefix(t, t.len() as int);
    (
        LineRecordV {
            byte_start: s as u64,
            byte_end: e as u64,
            line_number: n as u64,
            char_count: t.len() as u32,
            kind_hint: classify_line_spec(p),
            safe_split_offsets: split_offsets(t, s, t.len() as int),
        },
        p,
    )
}

pub open spec fn nul_message(path: Seq<char>, n: int) -> Seq<char> {
    "NULL byte found while scanning "@ + path + " at line "@ + decimal(n as nat)
}

pub open spec fn utf8_message(path: Seq<char>, n: int) -> Seq<char> {
    "invalid UTF-8 while scanning "@ + path + " at line "@ + decimal(n as nat)
}

pub open spec fn count_message(path: Seq<char>, n: int) -> Seq<char> {
    "line "@ + decimal(n as nat) + " in "@ + path + " exceeds supported character count"@
}

/// What is wrong with the line from `s` to `e` numbered `n`, if anything:
/// a NUL byte, then bytes that are not UTF-8, then more characters than a
/// `u32` counts.
pub open spec fn line_fault(path: Seq<char>, b: Seq<u8>, s: int, e: int, n: int) -> Option<Seq<char>> {
    let seg = b.subrange(s, e);
    if seg.contains(0u8) {
        Some(nul_message(path, n))
    } else if !valid_utf8(seg) {
        Some(utf8_message(path, n))
    } else if decode_utf8(seg).len() > u32::MAX {
        Some(count_message(path, n))
    } else {
        None
    }
}

/// The lines of `b` from byte `s` on, the first numbered `n`: their records,
/// or the fault of the first faulty line.
pub open spec fn lines_from(path: Seq<char>, b: Seq<u8>, s: int, n: int) -> Result<Seq<(LineRecordV, Seq<char>)>, Seq<char>>
    decreases b.len() - s,
{
    if s < 0 || s >= b.len() {
        Ok(seq![])
    } else {
        let e = line_end(b, s);
        proof {
            lemma_line_end(b, s);
        }
        match line_fault(path, b, s, e, n) {
            Some(m) => Err(m),
            None => match lines_from(path, b, e, n + 1) {
                Ok(rest) => Ok(seq![line_of(b, s, e, n)] + rest),
                Err(m) => Err(m),
            },
        }
    }
}

pub open spec fn prepend(done: Seq<(LineRecordV, Seq<char>)>, r: Result<Seq<(LineRecordV, Seq<char>)>, Seq<char>>) -> Result<Seq<(LineRecordV, Seq<char>)>, Seq<char>> {
    match r {
        Ok(rest) => Ok(done + rest),
        Err(m) => Err(m),
    }
}

fn message(head: &str, path: &str, mid: &str, n: usize) -> (r: String)
    ensures
        r@ == head@ + path@ + mid@ + decimal(n as nat),
{
    let mut t = to_chars(head);
    push_all(&mut t, &to_chars(path));
    push_all(&mut t, &to_chars(mid));
    push_all(&mut t, &decimal_chars(n));
    assert(t@ =~= head@ + path@ + mid@ + decimal(n as nat));
    from_chars(&t)
}

/// The record of one line, from `s` to `e`, numbered `n`.
fn scan_line(path: &str, bytes: &[u8], s: usize, e: usize, n: usize) -> (r: Result<ScannedLine, String>)
    requires
        s < e <= bytes@.len(),
    ensures
        match line_fault(path@, bytes@, s as int, e as int, n as int) {
            Some(m) => r matches Err(x) && x@ == m,
            None => r matches Ok(l) && scanned_view(l) == line_of(bytes@, s as int, e as int, n as int),
        },
{
    let ghost seg = bytes@.subrange(s as int, e as int);
    let mut k: usize = s;
    while k < e
        invariant
            s <= k <= e <= bytes@.len(),
            seg == bytes@.subrange(s as int, e as int),
            forall|j: int| s <= j < k ==> bytes@[j] != 0u8,
        decreases e - k,
    {
        if bytes[k] == 0 {
            assert(seg[k - s] == 0u8);
            return Err(message("NULL byte found while scanning ", path, " at line ", n));
        }
        k = k + 1;
    }
    assert(!seg.contains(0u8));
    let slice = vstd::slice::slice_subrange(bytes, s, e);
    assert(slice@ == seg);
    let text = match crate::strs::str_from_utf8(slice) {
        Err(_) => {
            return Err(message("invalid UTF-8 while scanning ", path, " at line ", n));
        },
        Ok(t) => t,
    };
    let t = to_chars(text.as_str());
    if t.len() > 4294967295 {
        let mut m = to_chars("line ");
        push_all(&mut m, &decimal_chars(n));
        push_all(&mut m, &to_chars(" in "));
        push_all(&mut m, &to_chars(path));
        push_all(&mut m, &to_chars(" exceeds supported character count"));
        assert(m@ =~= count_message(path@, n as int));
        return Err(from_chars(&m));
    }
    proof {
        vstd::utf8::decode_utf8_encode_utf8(seg);
        lemma_byte_len_encode(t@);
    }
    assert(byte_len(t@) == e - s);
    let mut prefix: Vec<char> = Vec::new();
    let mut prefix_bytes: usize = 0;
    let mut offsets: Vec<u64> = Vec::new();
    let mut off: usize = 0;
    let mut j: usize = 0;
    while j < t.len()
        invariant
            j <= t@.len(),
            s < e <= bytes@.len(),
            byte_len(t@) == e - s,
            off == byte_len(t@.take(j as int)),
            prefix@ == kept_prefix(t@, j as int),
            prefix_bytes == byte_len(prefix@),
            prefix_bytes <= LINE_PREFIX_BYTES,
            offsets@ == split_offsets(t@, s as int, j as int),
        decreases t@.len() - j,
    {
        let c = t[j];
        let cl = char_len8_exec(c);
        proof {
            lemma_byte_len_take(t@, j as int);
            lemma_byte_len_prefix(t@, j + 1);
        }
        if j > 0 && j % BYTE_WINDOW_CHAR_TARGET == 0 {
            offsets.push((s + off) as u64);
        }
        if prefix_bytes + cl <= LINE_PREFIX_BYTES {
            proof {
                lemma_byte_len_concat(prefix@, seq![c]);
                assert(seq![c].drop_first() =~= Seq::<char>::empty());
                assert(byte_len(seq![c]) == char_len8(c) + byte_len(seq![c].drop_first()));
                assert(prefix@.push(c) =~= prefix@ + seq![c]);
            }
            prefix.push(c);
            prefix_bytes = prefix_bytes + cl;
        }
        off = off + cl;
        j = j + 1;
    }
    let prefix_text = from_chars(&prefix);
    let kind = classify_line(prefix_text.as_str());
    let record = LineRecord {
        byte_start: s as u64,
        byte_end: e as u64,
        line_number: n as u64,
        char_count: t.len() as u32,
        kind_hint: kind,
        safe_split_offsets: offsets,
    };
    Ok(ScannedLine { record, prefix: prefix_text })
}

/// The physical lines of a large input (`path` names it in messages): each
/// line ends just after a `'\n'` or at the end of the input, a last line
/// that is empty is not counted, and lines are numbered from 1. The first
/// line with a NUL byte, with bytes that are not UTF-8, or with more
/// characters than a `u32` counts is an error.
pub fn scan_physical_lines(path: &str, bytes: &[u8]) -> (r: Result<Vec<ScannedLine>, String>)
    ensures
        match lines_from(path@, bytes@, 0, 1) {
            Ok(ls) => r matches Ok(v) && v@.map_values(|l: ScannedLine| scanned_view(l)) == ls,
            Err(m) => r matches Err(x) && x@ == m,
        },
{
    let mut out: Vec<ScannedLine> = Vec::new();
    let mut s: usize = 0;
    let mut done: usize = 0;
    while s < bytes.len()
        invariant
            s <= bytes@.len(),
            done <= s,
            lines_from(path@, bytes@, 0, 1) == prepend(out@.map_values(|l: ScannedLine| scanned_view(l)), lines_from(path@, bytes@, s as int, done + 1)),
        decreases bytes@.len() - s,
    {
        let mut e = s;
        while e < bytes.len() && bytes[e] != 10u8
            invariant
                s <= e <= bytes@.len(),
                line_end(bytes@, s as int) == line_end(bytes@, e as int),
            decreases bytes@.len() - e,
        {
            e = e + 1;
        }
        if e < bytes.len() {
            e = e + 1;
        }
        proof {
            lemma_line_end(bytes@, s as int);
        }
        assert(e == line_end(bytes@, s as int));
        let n = done + 1;
        match scan_line(path, bytes, s, e, n) {
            Err(m) => {
                return Err(m);
            },
            Ok(l) => {
                let ghost before = out@.map_values(|l: ScannedLine| scanned_view(l));
                out.push(l);
                proof {
                    assert(out@.map_values(|l: ScannedLine| scanned_view(l)) =~= before.push(scanned_view(l)));
                    match lines_from(path@, bytes@, e as int, n + 1) {
                        Ok(rest) => {
                            assert(before + (seq![line_of(bytes@, s as int, e as int, n as int)] + rest) =~= before.push(scanned_view(l)) + rest);
                        },
                        Err(_) => {},
                    }
                }
            },
        }
        s = e;
        done = n;
    }
    assert(out@.map_values(|l: ScannedLine| scanned_view(l)) + Seq::<(LineRecordV, Seq<char>)>::empty() =~= out@.map_values(|l: ScannedLine| scanned_view(l)));
    Ok(out)
}

/// The lines found from byte `s` on, numbered from `n`, cover the bytes
/// from `s` to the end one after another: the first starts at `s`, each
/// starts where the one before it ends, the last ends at the end, none is
/// empty, and they are numbered in order.
pub open spec fn lines_cover(ls: Seq<(LineRecordV, Seq<char>)>, s: int, len: int, n: int) -> bool {
    &&& (ls.len() == 0 <==> s == len)
    &&& ls.len() > 0 ==> ls[0].0.byte_start == s && ls.last().0.byte_end == len
    &&& forall|i: int| 0 <= i < ls.len() - 1 ==> #[trigger] ls[i].0.byte_end == ls[i + 1].0.byte_start
    &&& forall|i: int| 0 <= i < ls.len() ==> (#[trigger] ls[i]).0.byte_start < ls[i].0.byte_end && ls[i].0.line_number == n + i
}

/// Law: the lines that a scan finds cover the input, one after another.
pub proof fn lemma_lines_cover(path: Seq<char>, b: Seq<u8>, s: int, n: int)
    requires
        0 <= s <= b.len(),
        b.len() <= usize::MAX,
        1 <= n <= s + 1,
        lines_from(path, b, s, n) is Ok,
    ensures
        lines_cover(lines_from(path, b, s, n)->Ok_0, s, b.len() as int, n),
    decreases b.len() - s,
{
    if s < b.len() {
        let e = line_end(b, s);
        lemma_line_end(b, s);
        lemma_lines_cover(path, b, e, n + 1);
        let rest = lines_from(path, b, e, n + 1)->Ok_0;
        let ls = lines_from(path, b, s, n)->Ok_0;
        assert(ls == seq![line_of(b, s, e, n)] + rest);
        assert forall|i: int| 0 <= i < ls.len() - 1 implies #[trigger] ls[i].0.byte_end == ls[i + 1].0.byte_start by {
            if i > 0 {
                assert(ls[i] == rest[i - 1]);
                assert(ls[i + 1] == rest[i]);
            }
        }
        assert forall|i: int| 0 <= i < ls.len() implies (#[trigger] ls[i]).0.byte_start < ls[i].0.byte_end && ls[i].0.line_number == n + i by {
            if i > 0 {
                assert(ls[i] == rest[i - 1]);
            }
        }
    }
}

proof fn lemma_newline_head(rest: Seq<u8>)
    ensures
        valid_utf8(seq![10u8] + rest) <==> valid_utf8(rest),
        valid_utf8(seq![10u8]),
{
    assert((10u8 & 0x7Fu8) == 10u8) by (bit_vector);
    let x = seq![10u8] + rest;
    assert(x[0] == 10u8);
    assert(vstd::utf8::valid_first_scalar(x));
    assert(vstd::utf8::pop_first_scalar(x) =~= rest);
    let y = seq![10u8];
    assert(y[0] == 10u8);
    assert(vstd::utf8::valid_first_scalar(y));
    assert(vstd::utf8::pop_first_scalar(y) =~= Seq::<u8>::empty());
    assert(valid_utf8(Seq::<u8>::empty()));
}

proof fn lemma_chars_within_bytes(t: Seq<char>)
    ensures
        t.len() <= byte_len(t),
    decreases t.len(),
{
    if t.len() > 0 {
        lemma_chars_within_bytes(t.drop_first());
    }
}

/// Law: a scan succeeds only on input with no NUL byte that is well-formed
/// UTF-8, and on every such input of at most `u32::MAX` bytes it succeeds.
pub proof fn lemma_lines_ok(path: Seq<char>, b: Seq<u8>, s: int, n: int)
    requires
        0 <= s <= b.len(),
    ensures
        lines_from(path, b, s, n) is Ok ==> !b.skip(s).contains(0u8) && valid_utf8(b.skip(s)),
        !b.skip(s).contains(0u8) && valid_utf8(b.skip(s)) && b.len() <= u32::MAX ==> lines_from(path, b, s, n) is Ok,
    decreases b.len() - s,
{
    if s == b.len() {
        assert(b.skip(s) =~= Seq::<u8>::empty());
        assert(valid_utf8(Seq::<u8>::empty()));
    } else {
        let e = line_end(b, s);
        lemma_line_end(b, s);
        lemma_lines_ok(path, b, e, n + 1);
        let seg = b.subrange(s, e);
        let x = b.skip(s);
        let tail = b.skip(e);
        assert(x =~= seg + tail);
        if lines_from(path, b, s, n) is Ok {
            vstd::utf8::valid_utf8_concat(seg, tail);
            if x.contains(0u8) {
                let j = choose|j: int| 0 <= j < x.len() && x[j] == 0u8;
                if j < seg.len() {
                    assert(seg[j] == 0u8);
                } else {
                    assert(tail[j - seg.len()] == 0u8);
                }
            }
        }
        if !x.contains(0u8) && valid_utf8(x) && b.len() <= u32::MAX {
            assert(!seg.contains(0u8)) by {
                if seg.contains(0u8) {
                    let j = choose|j: int| 0 <= j < seg.len() && seg[j] == 0u8;
                    assert(x[j] == 0u8);
                }
            }
            assert(!tail.contains(0u8)) by {
                if tail.contains(0u8) {
                    let j = choose|j: int| 0 <= j < tail.len() && tail[j] == 0u8;
                    assert(x[j + seg.len()] == 0u8);
                }
            }
            if e == b.len() {
                assert(seg =~= x);
                assert(tail =~= Seq::<u8>::empty());
                assert(valid_utf8(Seq::<u8>::empty()));
            } else {
                let k = e - 1 - s;
                assert(x[k] == 10u8);
                vstd::utf8::is_char_boundary_iff_not_is_continuation_byte(x, k);
                vstd::utf8::valid_utf8_split(x, k);
                assert(x.subrange(k, x.len() as int) =~= seq![10u8] + tail);
                lemma_newline_head(tail);
                assert(seg =~= x.subrange(0, k) + seq![10u8]);
                vstd::utf8::valid_utf8_concat(x.subrange(0, k), seq![10u8]);
            }
            let t = decode_utf8(seg);
            vstd::utf8::decode_utf8_encode_utf8(seg);
            lemma_byte_len_encode(t);
            lemma_chars_within_bytes(t);
        }
    }
}

proof fn lemma_split_offsets_increasing(t: Seq<char>, s: int, k: int)
    requires
        0 <= s,
        0 <= k <= t.len(),
        s + byte_len(t) <= u64::MAX,
    ensures
        crate::large_markdown::increasing(split_offsets(t, s, k)),
        forall|i: int| 0 <= i < split_offsets(t, s, k).len() ==> (#[trigger] split_offsets(t, s, k)[i]) < s + byte_len(t.take(k)) || (k == 0),
    decreases k,
{
    if k > 0 {
        lemma_split_offsets_increasing(t, s, k - 1);
        lemma_byte_len_take(t, k - 1);
        lemma_byte_len_prefix(t, k);
        let prev = split_offsets(t, s, k - 1);
        let v = s + byte_len(t.take(k - 1));
        if k - 1 > 0 && (k - 1) % (BYTE_WINDOW_CHAR_TARGET as int) == 0 {
            let x = prev + seq![v as u64];
            assert forall|a: int, b: int| 0 <= a < b < x.len() implies #[trigger] x[a] < #[trigger] x[b] by {
                if b == x.len() - 1 {
                    assert(x[a] == prev[a]);
                } else {
                    assert(x[a] == prev[a]);
                    assert(x[b] == prev[b]);
                }
            }
            assert forall|i: int| 0 <= i < x.len() implies (#[trigger] x[i]) < s + byte_len(t.take(k)) || (k == 0) by {
                if i < prev.len() {
                    assert(x[i] == prev[i]);
                }
            }
        } else {
            assert(split_offsets(t, s, k) =~= prev);
        }
    }
}

/// The lines a scan finds follow one another, none is empty, and each
/// line's cutting points increase.
pub proof fn lemma_scan_lines_follow(path: Seq<char>, b: Seq<u8>, s: int, n: int)
    requires
        0 <= s <= b.len(),
        b.len() <= usize::MAX,
        lines_from(path, b, s, n) is Ok,
    ensures
        forall|i: int| 0 <= i < (lines_from(path, b, s, n)->Ok_0).len() ==>
            crate::large_markdown::increasing((#[trigger] (lines_from(path, b, s, n)->Ok_0)[i]).0.safe_split_offsets),
    decreases b.len() - s,
{
    if s < b.len() {
        let e = line_end(b, s);
        lemma_line_end(b, s);
        lemma_scan_lines_follow(path, b, e, n + 1);
        let seg = b.subrange(s, e);
        let t = decode_utf8(seg);
        vstd::utf8::decode_utf8_encode_utf8(seg);
        lemma_byte_len_encode(t);
        lemma_split_offsets_increasing(t, s, t.len() as int);
        let ls = lines_from(path, b, s, n)->Ok_0;
        let rest = lines_from(path, b, e, n + 1)->Ok_0;
        assert(ls == seq![line_of(b, s, e, n)] + rest);
        assert forall|i: int| 0 <= i < ls.len() implies crate::large_markdown::increasing((#[trigger] ls[i]).0.safe_split_offsets) by {
            if i > 0 {
                assert(ls[i] == rest[i - 1]);
            }
        }
    }
}

/// The bytes a reader takes in at once.
pub const READ_WINDOW_BYTES: usize = 65536;

/// Where the line that holds position `e` of `b` starts (just after the last
/// newline before `e`).
pub open spec fn line_start_at(b: Seq<u8>, e: int) -> int
    decreases e,
{
    if e <= 0 {
        0
    } else if b[e - 1] == 10u8 {
        e
    } else {
        line_start_at(b, e - 1)
    }
}

/// What a reader keeps of the unfinished line at `e`: at most
/// `LINE_PREFIX_BYTES` of it.
pub open spec fn held_at(b: Seq<u8>, e: int) -> int {
    let c = e - line_start_at(b, e);
    if c < LINE_PREFIX_BYTES { c } else { LINE_PREFIX_BYTES as int }
}

/// The most a reader holds while it takes in the window that starts at `s`:
/// the window, plus what it keeps of the unfinished line before or after it.
pub open spec fn window_peak(b: Seq<u8>, s: int) -> int {
    let e = if s + READ_WINDOW_BYTES < b.len() { s + READ_WINDOW_BYTES } else { b.len() as int };
    let pre = (e - s) + held_at(b, s);
    let post = (e - s) + held_at(b, e);
    if pre < post { post } else { pre }
}

/// The most a reader that takes `b` in windows of `READ_WINDOW_BYTES` from
/// `s` on holds at once.
pub open spec fn peak_from(b: Seq<u8>, s: int) -> int
    decreases b.len() - s,
{
    if s < 0 || s >= b.len() {
        0
    } else if s + READ_WINDOW_BYTES >= b.len() {
        window_peak(b, s)
    } else {
        let w = window_peak(b, s);
        let r = peak_from(b, s + READ_WINDOW_BYTES);
        if w < r { r } else { w }
    }
}

/// Law: however large the input, a reader in windows holds at most one
/// window and `LINE_PREFIX_BYTES` of the line it has not finished.
pub proof fn lemma_peak_bound(b: Seq<u8>, s: int)
    ensures
        0 <= peak_from(b, s) <= READ_WINDOW_BYTES + LINE_PREFIX_BYTES,
    decreases b.len() - s,
{
    if !(s < 0 || s >= b.len()) {
        lemma_line_start_le(b, s);
        let e = if s + READ_WINDOW_BYTES < b.len() { s + READ_WINDOW_BYTES } else { b.len() as int };
        lemma_line_start_le(b, e);
        if s + READ_WINDOW_BYTES < b.len() {
            lemma_peak_bound(b, s + READ_WINDOW_BYTES);
        }
    }
}

proof fn lemma_line_start_le(b: Seq<u8>, e: int)
    ensures
        e >= 0 ==> 0 <= line_start_at(b, e) <= e,
    decreases e,
{
    if e > 0 && b[e - 1] != 10u8 {
        lemma_line_start_le(b, e - 1);
    }
}

/// The most bytes a reader that takes the input in windows of
/// `READ_WINDOW_BYTES` holds at once.
pub fn peak_buffered(bytes: &[u8]) -> (r: usize)
    ensures
        r == peak_from(bytes@, 0),
{
    let n = bytes.len();
    let mut s: usize = 0;
    let mut ls: usize = 0;
    let mut best: usize = 0;
    proof {
        lemma_peak_bound(bytes@, 0);
    }
    while s < n
        invariant
            s <= n,
            n == bytes@.len(),
            ls == line_start_at(bytes@, s as int),
            ls <= s,
            best <= READ_WINDOW_BYTES + LINE_PREFIX_BYTES,
            (if best < peak_from(bytes@, s as int) { peak_from(bytes@, s as int) } else { best as int }) == peak_from(bytes@, 0),
        decreases n - s,
    {
        let e: usize = if n - s > READ_WINDOW_BYTES { s + READ_WINDOW_BYTES } else { n };
        let c0: usize = s - ls;
        let pre: usize = (e - s) + (if c0 < LINE_PREFIX_BYTES { c0 } else { LINE_PREFIX_BYTES });
        let mut i: usize = s;
        while i < e
            invariant
                s <= i <= e,
                e <= n,
                n == bytes@.len(),
                ls == line_start_at(bytes@, i as int),
                ls <= i,
            decreases e - i,
        {
            if bytes[i] == 10u8 {
                ls = i + 1;
            }
            i = i + 1;
        }
        let c1: usize = e - ls;
        let post: usize = (e - s) + (if c1 < LINE_PREFIX_BYTES { c1 } else { LINE_PREFIX_BYTES });
        let w: usize = if pre < post { post } else { pre };
        proof {
            assert(w == window_peak(bytes@, s as int));
            lemma_peak_bound(bytes@, e as int);
            if e == n {
                assert(peak_from(bytes@, e as int) == 0);
            }
        }
        if w > best {
            best = w;
        }
        s = e;
    }
    best
}

/// The lines of a large input with the size of the input: each line's
/// position, number, character count, kind and cutting points, as
/// `scan_physical_lines` finds them, and the most bytes a reader that takes
/// the input in windows holds at once (`peak_buffered`).
pub fn scan_lines(path: &str, bytes: &[u8]) -> (r: Result<LineScanReport, String>)
    ensures
        match lines_from(path@, bytes@, 0, 1) {
            Ok(ls) => r matches Ok(rep) && rep.bytes == bytes@.len() && rep.max_buffered_bytes == peak_from(bytes@, 0)
                && rep.lines@.map_values(|l: LineRecord| record_view(l)) == ls.map_values(|x: (LineRecordV, Seq<char>)| x.0)
                && lines_cover(ls, 0, bytes@.len() as int, 1),
            Err(m) => r matches Err(x) && x@ == m,
        },
        r is Ok ==> !bytes@.contains(0u8) && valid_utf8(bytes@),
        !bytes@.contains(0u8) && valid_utf8(bytes@) && bytes@.len() <= u32::MAX ==> r is Ok,
        r matches Ok(rep) ==> crate::large_markdown::lines_follow(rep.lines@),
        r matches Ok(rep) ==> rep.max_buffered_bytes <= READ_WINDOW_BYTES + LINE_PREFIX_BYTES,
{
    proof {
        lemma_lines_ok(path@, bytes@, 0, 1);
        assert(bytes@.skip(0) =~= bytes@);
    }
    let lines = match scan_physical_lines(path, bytes) {
        Err(m) => return Err(m),
        Ok(v) => v,
    };
    let total = bytes.len();
    assert(bytes@.len() == total);
    proof {
        lemma_lines_cover(path@, bytes@, 0, 1);
        lemma_scan_lines_follow(path@, bytes@, 0, 1);
    }
    let ghost ls = lines_from(path@, bytes@, 0, 1)->Ok_0;
    let mut records: Vec<LineRecord> = Vec::new();
    let mut i: usize = 0;
    while i < lines.len()
        invariant
            i <= lines@.len(),
            lines@.map_values(|l: ScannedLine| scanned_view(l)) == ls,
            records@.map_values(|l: LineRecord| record_view(l)) == ls.take(i as int).map_values(|x: (LineRecordV, Seq<char>)| x.0),
        decreases lines@.len() - i,
    {
        let l = &lines[i];
        let rec = LineRecord {
            byte_start: l.record.byte_start,
            byte_end: l.record.byte_end,
            line_number: l.record.line_number,
            char_count: l.record.char_count,
            kind_hint: l.record.kind_hint,
            safe_split_offsets: vstd::slice::slice_to_vec(l.record.safe_split_offsets.as_slice()),
        };
        let ghost before = records@.map_values(|l: LineRecord| record_view(l));
        assert(ls[i as int] == scanned_view(lines@[i as int]));
        records.push(rec);
        assert(records@.map_values(|l: LineRecord| record_view(l)) =~= before.push(record_view(rec)));
        assert(ls.take(i + 1).map_values(|x: (LineRecordV, Seq<char>)| x.0) =~= ls.take(i as int).map_values(|x: (LineRecordV, Seq<char>)| x.0).push(ls[i as int].0));
        i = i + 1;
    }
    assert(ls.take(lines@.len() as int) =~= ls);
    proof {
        let rv = records@.map_values(|l: LineRecord| record_view(l));
        assert(rv =~= ls.map_values(|x: (LineRecordV, Seq<char>)| x.0));
        assert forall|i: int| 0 <= i < records@.len() - 1 implies #[trigger] records@[i].byte_end == records@[i + 1].byte_start by {
            assert(rv[i] == ls[i].0);
            assert(rv[i + 1] == ls[i + 1].0);
        }
        assert forall|i: int| 0 <= i < records@.len() implies (#[trigger] records@[i]).byte_start < records@[i].byte_end by {
            assert(rv[i] == ls[i].0);
        }
        assert forall|i: int, j: int, k: int| 0 <= i < records@.len() && 0 <= j < k < records@[i].safe_split_offsets@.len()
            implies #[trigger] records@[i].safe_split_offsets@[j] < #[trigger] records@[i].safe_split_offsets@[k] by {
            assert(rv[i] == ls[i].0);
            assert(crate::large_markdown::increasing(ls[i].0.safe_split_offsets));
        }
    }
    let peak = peak_buffered(bytes);
    proof {
        lemma_peak_bound(bytes@, 0);
    }
    Ok(LineScanReport { lines: records, bytes: bytes.len() as u64, max_buffered_bytes: peak })
}

} // verus!
