//! Character-level text utilities shared by the parsers and renderers.
//!
//! Text is handled as sequences of `char`; the spec functions here give the
//! meaning of the standard string operations the library relies on
//! (`trim`, `split('\n')`, `lines()`, prefix tests) so that the contracts of
//! the parsers can be stated over `Seq<char>`.
use vstd::prelude::*;
use vstd::slice::{slice_subrange, slice_to_vec};

verus! {

/// `std::str::from_utf8`, its text taken as an owned string. `Ok` exactly
/// when the bytes are well-formed UTF-8, holding the text they encode. Else
/// the error as its `Display` writes it, and whether the bytes end inside a
/// character (`Utf8Error::error_len` is `None`: more bytes could complete
/// them) rather than holding a byte no continuation can make valid, as the
/// documentation of `Utf8Error` states.
#[verifier::external_body]
pub(crate) fn str_from_utf8(bytes: &[u8]) -> (r: Result<String, (String, bool)>)
    ensures
        r is Ok <==> vstd::utf8::valid_utf8(bytes@),
        r matches Ok(s) ==> s@ == vstd::utf8::decode_utf8(bytes@),
        r matches Err(e) && e.1 ==> exists|rest: Seq<u8>| #[trigger] vstd::utf8::valid_utf8(bytes@ + rest),
        r matches Err(e) && !e.1 ==> forall|rest: Seq<u8>| !#[trigger] vstd::utf8::valid_utf8(bytes@ + rest),
{
    match std::str::from_utf8(bytes) {
        Ok(s) => Ok(s.to_string()),
        Err(e) => Err((format!("{e}"), e.error_len().is_none())),
    }
}

/// `String::push` appends one character at the end, as its documentation states.
pub assume_specification[ String::push ](s: &mut String, ch: char)
    ensures
        final(s)@ == old(s)@.push(ch),
;

/// The characters of a string slice, in order.
pub fn to_chars(s: &str) -> (v: Vec<char>)
    ensures
        v@ == s@,
{
    let mut v: Vec<char> = Vec::new();
    for c in it: s.chars()
        invariant
            v@ == it.seq().take(it.index() as int),
    {
        v.push(c);
    }
    v
}

/// A string holding the given characters.
pub fn from_chars(v: &[char]) -> (s: String)
    ensures
        s@ == v@,
{
    let mut s = String::new();
    let mut i: usize = 0;
    while i < v.len()
        invariant
            i <= v@.len(),
            s@ == v@.take(i as int),
        decreases v@.len() - i,
    {
        s.push(v[i]);
        i = i + 1;
        assert(s@ =~= v@.take(i as int));
    }
    assert(v@.take(v@.len() as int) =~= v@);
    s
}

// ---------------------------------------------------------------------------
// Character classes
// ---------------------------------------------------------------------------

/// Unicode `White_Space` (the set `char::is_whitespace` tests).
pub open spec fn is_ws(c: char) -> bool {
    let n = c as u32;
    (9 <= n && n <= 13) || n == 32 || n == 0x85 || n == 0xA0 || n == 0x1680 || (0x2000 <= n
        && n <= 0x200A) || n == 0x2028 || n == 0x2029 || n == 0x202F || n == 0x205F || n
        == 0x3000
}

pub fn is_ws_exec(c: char) -> (b: bool)
    ensures
        b == is_ws(c),
{
    let n = c as u32;
    (9 <= n && n <= 13) || n == 32 || n == 0x85 || n == 0xA0 || n == 0x1680 || (0x2000 <= n
        && n <= 0x200A) || n == 0x2028 || n == 0x2029 || n == 0x202F || n == 0x205F || n
        == 0x3000
}

/// General category `Cc` (the set `char::is_control` tests).
pub open spec fn is_control(c: char) -> bool {
    let n = c as u32;
    n <= 0x1F || (0x7F <= n && n <= 0x9F)
}

pub fn is_control_exec(c: char) -> (b: bool)
    ensures
        b == is_control(c),
{
    let n = c as u32;
    n <= 0x1F || (0x7F <= n && n <= 0x9F)
}

pub open spec fn is_ascii_digit(c: char) -> bool {
    '0' <= c && c <= '9'
}

pub open spec fn is_ascii_upper(c: char) -> bool {
    'A' <= c && c <= 'Z'
}

pub open spec fn ascii_lower(c: char) -> char {
    if is_ascii_upper(c) {
        ((c as u32) + 32) as char
    } else {
        c
    }
}

pub fn ascii_lower_exec(c: char) -> (r: char)
    ensures
        r == ascii_lower(c),
{
    if 'A' <= c && c <= 'Z' {
        let n: u32 = (c as u32) + 32;
        let r = char_from_ascii(n);
        r
    } else {
        c
    }
}

fn char_from_ascii(n: u32) -> (c: char)
    requires
        n < 128,
    ensures
        c == n as char,
{
    let b: u8 = n as u8;
    b as char
}

// ---------------------------------------------------------------------------
// Prefixes, suffixes and trimming
// ---------------------------------------------------------------------------

pub open spec fn starts_with(s: Seq<char>, p: Seq<char>) -> bool {
    p.len() <= s.len() && s.subrange(0, p.len() as int) == p
}

pub open spec fn ends_with(s: Seq<char>, p: Seq<char>) -> bool {
    p.len() <= s.len() && s.subrange(s.len() - p.len(), s.len() as int) == p
}

/// `str::trim_start`.
pub open spec fn ltrim(s: Seq<char>) -> Seq<char>
    decreases s.len(),
{
    if s.len() > 0 && is_ws(s[0]) {
        ltrim(s.drop_first())
    } else {
        s
    }
}

/// `str::trim_end`.
pub open spec fn rtrim(s: Seq<char>) -> Seq<char>
    decreases s.len(),
{
    if s.len() > 0 && is_ws(s.last()) {
        rtrim(s.drop_last())
    } else {
        s
    }
}

/// `str::trim`.
pub open spec fn trim(s: Seq<char>) -> Seq<char> {
    rtrim(ltrim(s))
}

/// Does `v[lo..]` start with `p`?
pub fn starts_with_at(v: &[char], lo: usize, hi: usize, p: &[char]) -> (b: bool)
    requires
        lo <= hi <= v@.len(),
    ensures
        b == starts_with(v@.subrange(lo as int, hi as int), p@),
{
    if p.len() > hi - lo {
        return false;
    }
    let mut i: usize = 0;
    while i < p.len()
        invariant
            p@.len() <= hi - lo,
            lo <= hi <= v@.len(),
            i <= p@.len(),
            forall|k: int| 0 <= k < i ==> v@[lo + k] == p@[k],
        decreases p@.len() - i,
    {
        if v[lo + i] != p[i] {
            assert(v@.subrange(lo as int, hi as int).subrange(0, p@.len() as int)[i as int]
                != p@[i as int]);
            return false;
        }
        i = i + 1;
    }
    assert(v@.subrange(lo as int, hi as int).subrange(0, p@.len() as int) =~= p@);
    true
}

/// Does `v[lo..hi]` end with `p`?
pub fn ends_with_at(v: &[char], lo: usize, hi: usize, p: &[char]) -> (b: bool)
    requires
        lo <= hi <= v@.len(),
    ensures
        b == ends_with(v@.subrange(lo as int, hi as int), p@),
{
    if p.len() > hi - lo {
        return false;
    }
    let base = hi - p.len();
    let mut i: usize = 0;
    while i < p.len()
        invariant
            p@.len() <= hi - lo,
            base == hi - p@.len(),
            lo <= hi <= v@.len(),
            i <= p@.len(),
            forall|k: int| 0 <= k < i ==> v@[base + k] == p@[k],
        decreases p@.len() - i,
    {
        if v[base + i] != p[i] {
            let ghost s = v@.subrange(lo as int, hi as int);
            assert(s.subrange(s.len() - p@.len(), s.len() as int)[i as int] != p@[i as int]);
            return false;
        }
        i = i + 1;
    }
    let ghost s = v@.subrange(lo as int, hi as int);
    assert(s.subrange(s.len() - p@.len(), s.len() as int) =~= p@);
    true
}

/// Does `v` start with the text `p`?
pub fn starts_with_str(v: &[char], p: &str) -> (b: bool)
    ensures
        b == starts_with(v@, p@),
{
    assert(v@.subrange(0, v@.len() as int) =~= v@);
    starts_with_at(v, 0, v.len(), &to_chars(p))
}

/// Does `v` end with the text `p`?
pub fn ends_with_str(v: &[char], p: &str) -> (b: bool)
    ensures
        b == ends_with(v@, p@),
{
    assert(v@.subrange(0, v@.len() as int) =~= v@);
    ends_with_at(v, 0, v.len(), &to_chars(p))
}

/// Is `v` the text `p`?
pub fn eq_str(v: &[char], p: &str) -> (b: bool)
    ensures
        b == (v@ == p@),
{
    chars_eq(v, &to_chars(p))
}

/// Index of the first non-whitespace character of `v[lo..hi]` (or `hi`).
pub fn ltrim_idx(v: &[char], lo: usize, hi: usize) -> (r: usize)
    requires
        lo <= hi <= v@.len(),
    ensures
        lo <= r <= hi,
        ltrim(v@.subrange(lo as int, hi as int)) == v@.subrange(r as int, hi as int),
{
    let mut i = lo;
    while i < hi && is_ws_exec(v[i])
        invariant
            lo <= i <= hi <= v@.len(),
            ltrim(v@.subrange(lo as int, hi as int)) == ltrim(v@.subrange(i as int, hi as int)),
        decreases hi - i,
    {
        assert(v@.subrange(i as int, hi as int).drop_first() =~= v@.subrange(
            i + 1,
            hi as int,
        ));
        i = i + 1;
    }
    i
}

/// One past the last non-whitespace character of `v[lo..hi]` (or `lo`).
pub fn rtrim_idx(v: &[char], lo: usize, hi: usize) -> (r: usize)
    requires
        lo <= hi <= v@.len(),
    ensures
        lo <= r <= hi,
        rtrim(v@.subrange(lo as int, hi as int)) == v@.subrange(lo as int, r as int),
{
    let mut j = hi;
    while j > lo && is_ws_exec(v[j - 1])
        invariant
            lo <= j <= hi <= v@.len(),
            rtrim(v@.subrange(lo as int, hi as int)) == rtrim(v@.subrange(lo as int, j as int)),
        decreases j - lo,
    {
        assert(v@.subrange(lo as int, j as int).drop_last() =~= v@.subrange(
            lo as int,
            j - 1,
        ));
        j = j - 1;
    }
    j
}

/// The bounds of `trim(v[lo..hi])`.
pub fn trim_idx(v: &[char], lo: usize, hi: usize) -> (r: (usize, usize))
    requires
        lo <= hi <= v@.len(),
    ensures
        lo <= r.0 <= r.1 <= hi,
        trim(v@.subrange(lo as int, hi as int)) == v@.subrange(r.0 as int, r.1 as int),
{
    let a = ltrim_idx(v, lo, hi);
    let b = rtrim_idx(v, a, hi);
    (a, b)
}

/// A copy of `v[lo..hi]`.
pub fn slice_copy(v: &[char], lo: usize, hi: usize) -> (r: Vec<char>)
    requires
        lo <= hi <= v@.len(),
    ensures
        r@ == v@.subrange(lo as int, hi as int),
{
    slice_to_vec(slice_subrange(v, lo, hi))
}

/// `a + b` as a new vector.
pub fn concat(a: &[char], b: &[char]) -> (r: Vec<char>)
    ensures
        r@ == a@ + b@,
{
    let mut r = slice_to_vec(a);
    let mut i: usize = 0;
    while i < b.len()
        invariant
            i <= b@.len(),
            r@ == a@ + b@.take(i as int),
        decreases b@.len() - i,
    {
        r.push(b[i]);
        i = i + 1;
        assert(r@ =~= a@ + b@.take(i as int));
    }
    assert(b@.take(b@.len() as int) =~= b@);
    r
}

/// Append `b` at the end of `a`.
pub fn push_all(a: &mut Vec<char>, b: &[char])
    ensures
        final(a)@ == old(a)@ + b@,
{
    let mut i: usize = 0;
    while i < b.len()
        invariant
            i <= b@.len(),
            a@ == old(a)@ + b@.take(i as int),
        decreases b@.len() - i,
    {
        a.push(b[i]);
        i = i + 1;
        assert(a@ =~= old(a)@ + b@.take(i as int));
    }
    assert(b@.take(b@.len() as int) =~= b@);
}

/// Do two character slices hold the same text?
pub fn chars_eq(a: &[char], b: &[char]) -> (r: bool)
    ensures
        r == (a@ == b@),
{
    if a.len() != b.len() {
        return false;
    }
    let mut i: usize = 0;
    while i < a.len()
        invariant
            a@.len() == b@.len(),
            i <= a@.len(),
            forall|k: int| 0 <= k < i ==> a@[k] == b@[k],
        decreases a@.len() - i,
    {
        if a[i] != b[i] {
            return false;
        }
        i = i + 1;
    }
    assert(a@ =~= b@);
    true
}

// ---------------------------------------------------------------------------
// Splitting
// ---------------------------------------------------------------------------

/// Position of the first `c` in `s`, or `s.len()` when there is none.
pub open spec fn first_index_of(s: Seq<char>, c: char) -> int
    decreases s.len(),
{
    if s.len() == 0 {
        0
    } else if s[0] == c {
        0
    } else {
        1 + first_index_of(s.drop_first(), c)
    }
}

pub proof fn lemma_first_index_of(s: Seq<char>, c: char, j: int)
    requires
        0 <= j <= s.len(),
        forall|k: int| 0 <= k < j ==> s[k] != c,
        j == s.len() || s[j] == c,
    ensures
        first_index_of(s, c) == j,
    decreases s.len(),
{
    if s.len() > 0 && j > 0 {
        assert forall|k: int| 0 <= k < j - 1 implies s.drop_first()[k] != c by {
            assert(s.drop_first()[k] == s[k + 1]);
        }
        lemma_first_index_of(s.drop_first(), c, j - 1);
    }
}

/// `str::split(c)`: the pieces between occurrences of `c` (always at least one).
pub open spec fn split_on(s: Seq<char>, c: char) -> Seq<Seq<char>>
    decreases s.len(),
{
    let j = first_index_of(s, c);
    if j >= s.len() {
        seq![s]
    } else {
        proof {
            lemma_first_index_bounds(s, c);
        }
        seq![s.take(j)] + split_on(s.skip(j + 1), c)
    }
}

pub proof fn lemma_first_index_bounds(s: Seq<char>, c: char)
    ensures
        0 <= first_index_of(s, c) <= s.len(),
        first_index_of(s, c) < s.len() ==> s[first_index_of(s, c)] == c,
        forall|k: int| 0 <= k < first_index_of(s, c) ==> s[k] != c,
    decreases s.len(),
{
    if s.len() > 0 && s[0] != c {
        lemma_first_index_bounds(s.drop_first(), c);
        assert forall|k: int| 0 <= k < first_index_of(s, c) implies s[k] != c by {
            if k > 0 {
                assert(s[k] == s.drop_first()[k - 1]);
            }
        }
    }
}

/// Position of the first `c` in `v[lo..hi]`, as an absolute index (`hi` when absent).
pub fn find_char(v: &[char], lo: usize, hi: usize, c: char) -> (r: usize)
    requires
        lo <= hi <= v@.len(),
    ensures
        lo <= r <= hi,
        r - lo == first_index_of(v@.subrange(lo as int, hi as int), c),
{
    let mut i = lo;
    while i < hi && v[i] != c
        invariant
            lo <= i <= hi <= v@.len(),
            forall|k: int| lo <= k < i ==> v@[k] != c,
        decreases hi - i,
    {
        i = i + 1;
    }
    proof {
        let s = v@.subrange(lo as int, hi as int);
        assert forall|k: int| 0 <= k < i - lo implies s[k] != c by {
            assert(s[k] == v@[lo + k]);
        }
        lemma_first_index_of(s, c, i - lo);
    }
    i
}

/// Drop one trailing `'\r'`.
pub open spec fn strip_cr(s: Seq<char>) -> Seq<char> {
    if s.len() > 0 && s.last() == '\r' {
        s.drop_last()
    } else {
        s
    }
}

/// `str::lines`: split at `"\n"` (dropping a `'\r'` just before it); a final
/// line ending yields no empty last line.
pub open spec fn lines(s: Seq<char>) -> Seq<Seq<char>>
    decreases s.len(),
{
    if s.len() == 0 {
        seq![]
    } else {
        let j = first_index_of(s, '\n');
        if j >= s.len() {
            seq![s]
        } else {
            proof {
                lemma_first_index_bounds(s, '\n');
            }
            seq![strip_cr(s.take(j))] + lines(s.skip(j + 1))
        }
    }
}

/// The texts held by a vector of character vectors.
pub open spec fn vv(v: &Vec<Vec<char>>) -> Seq<Seq<char>> {
    v@.map_values(|x: Vec<char>| x@)
}

/// `s.split(c)` on a character slice.
pub fn split_chars(v: &[char], c: char) -> (r: Vec<Vec<char>>)
    ensures
        vv(&r) == split_on(v@, c),
{
    let mut out: Vec<Vec<char>> = Vec::new();
    let mut start: usize = 0;
    let mut i: usize = 0;
    assert(v@.skip(0) =~= v@);
    assert(vv(&out) =~= Seq::<Seq<char>>::empty());
    while i < v.len()
        invariant
            start <= i <= v@.len(),
            forall|k: int| start <= k < i ==> v@[k] != c,
            vv(&out) + split_on(v@.skip(start as int), c) == split_on(v@, c),
        decreases v@.len() - i,
    {
        if v[i] == c {
            let ghost rest = v@.skip(start as int);
            proof {
                lemma_first_index_of(rest, c, (i - start) as int);
                assert(rest.take(i - start) =~= v@.subrange(start as int, i as int));
                assert(rest.skip(i - start + 1) =~= v@.skip(i + 1));
            }
            let piece = slice_copy(v, start, i);
            let ghost before = vv(&out);
            out.push(piece);
            assert(vv(&out) =~= before.push(v@.subrange(start as int, i as int)));
            start = i + 1;
        }
        i = i + 1;
    }
    let ghost rest = v@.skip(start as int);
    proof {
        lemma_first_index_of(rest, c, rest.len() as int);
    }
    let piece = slice_copy(v, start, v.len());
    let ghost before = vv(&out);
    out.push(piece);
    assert(rest =~= v@.subrange(start as int, v@.len() as int));
    assert(vv(&out) =~= before + split_on(rest, c));
    out
}

/// `s.lines()` on a character slice.
pub fn lines_chars(v: &[char]) -> (r: Vec<Vec<char>>)
    ensures
        vv(&r) == lines(v@),
{
    let mut out: Vec<Vec<char>> = Vec::new();
    let mut start: usize = 0;
    let mut i: usize = 0;
    assert(v@.skip(0) =~= v@);
    assert(vv(&out) =~= Seq::<Seq<char>>::empty());
    while i < v.len()
        invariant
            start <= i <= v@.len(),
            forall|k: int| start <= k < i ==> v@[k] != '\n',
            vv(&out) + lines(v@.skip(start as int)) == lines(v@),
        decreases v@.len() - i,
    {
        if v[i] == '\n' {
            let ghost rest = v@.skip(start as int);
            proof {
                lemma_first_index_of(rest, '\n', (i - start) as int);
                assert(rest.take(i - start) =~= v@.subrange(start as int, i as int));
                assert(rest.skip(i - start + 1) =~= v@.skip(i + 1));
            }
            let mut end = i;
            if end > start && v[end - 1] == '\r' {
                end = end - 1;
                assert(v@.subrange(start as int, i as int).drop_last() =~= v@.subrange(
                    start as int,
                    end as int,
                ));
            }
            let piece = slice_copy(v, start, end);
            let ghost before = vv(&out);
            out.push(piece);
            assert(vv(&out) =~= before.push(strip_cr(v@.subrange(start as int, i as int))));
            start = i + 1;
        }
        i = i + 1;
    }
    let ghost rest = v@.skip(start as int);
    if start < v.len() {
        proof {
            lemma_first_index_of(rest, '\n', rest.len() as int);
        }
        let piece = slice_copy(v, start, v.len());
        let ghost before = vv(&out);
        out.push(piece);
        assert(rest =~= v@.subrange(start as int, v@.len() as int));
        assert(vv(&out) =~= before + lines(rest));
    } else {
        assert(vv(&out) =~= vv(&out) + lines(rest));
    }
    out
}

/// Join pieces with a separator.
pub open spec fn join(parts: Seq<Seq<char>>, sep: Seq<char>) -> Seq<char>
    decreases parts.len(),
{
    if parts.len() == 0 {
        seq![]
    } else if parts.len() == 1 {
        parts[0]
    } else {
        join(parts.drop_last(), sep) + sep + parts.last()
    }
}

// ---------------------------------------------------------------------------
// UTF-8 lengths
// ---------------------------------------------------------------------------

/// The number of bytes of a character in UTF-8.
pub open spec fn char_len8(c: char) -> nat {
    if (c as u32) < 0x80 {
        1
    } else if (c as u32) < 0x800 {
        2
    } else if (c as u32) < 0x10000 {
        3
    } else {
        4
    }
}

/// The number of bytes of a text in UTF-8.
pub open spec fn byte_len(s: Seq<char>) -> nat
    decreases s.len(),
{
    if s.len() == 0 {
        0
    } else {
        char_len8(s[0]) + byte_len(s.drop_first())
    }
}

pub proof fn lemma_byte_len_concat(a: Seq<char>, b: Seq<char>)
    ensures
        byte_len(a + b) == byte_len(a) + byte_len(b),
    decreases a.len(),
{
    if a.len() > 0 {
        assert((a + b).drop_first() =~= a.drop_first() + b);
        lemma_byte_len_concat(a.drop_first(), b);
    } else {
        assert(a + b =~= b);
    }
}

/// Adding one character to a prefix adds its length.
pub proof fn lemma_byte_len_take(s: Seq<char>, k: int)
    requires
        0 <= k < s.len(),
    ensures
        byte_len(s.take(k + 1)) == byte_len(s.take(k)) + char_len8(s[k]),
{
    assert(s.take(k + 1) =~= s.take(k) + seq![s[k]]);
    lemma_byte_len_concat(s.take(k), seq![s[k]]);
    assert(seq![s[k]].drop_first() =~= Seq::<char>::empty());
    assert(byte_len(Seq::<char>::empty()) == 0);
    assert(byte_len(seq![s[k]]) == char_len8(s[k]) + byte_len(seq![s[k]].drop_first()));
}

pub proof fn lemma_byte_len_prefix(s: Seq<char>, k: int)
    requires
        0 <= k <= s.len(),
    ensures
        byte_len(s.take(k)) <= byte_len(s),
{
    assert(s =~= s.take(k) + s.skip(k));
    lemma_byte_len_concat(s.take(k), s.skip(k));
}

/// `byte_len` is the length of vstd's UTF-8 encoding.
pub proof fn lemma_byte_len_encode(s: Seq<char>)
    ensures
        byte_len(s) == vstd::utf8::encode_utf8(s).len(),
    decreases s.len(),
{
    if s.len() > 0 {
        vstd::utf8::char_is_scalar(s[0]);
        lemma_byte_len_encode(s.drop_first());
    }
}

/// The bytes of a text fit in `usize`.
pub fn byte_len_fits(s: &str)
    ensures
        byte_len(s@) <= usize::MAX,
{
    let b = s.as_bytes();
    let n = b.len();
    proof {
        lemma_byte_len_encode(s@);
    }
    assert(n == b@.len());
}

/// The UTF-8 length of a character.
pub fn char_len8_exec(c: char) -> (n: usize)
    ensures
        n == char_len8(c),
{
    if (c as u32) < 0x80 {
        1
    } else if (c as u32) < 0x800 {
        2
    } else if (c as u32) < 0x10000 {
        3
    } else {
        4
    }
}

/// `pb + byte_len(v[lo..hi])`, where `pb` is the byte length of `v[..lo]`.
pub fn advance_bytes(v: &[char], lo: usize, hi: usize, pb: usize) -> (r: usize)
    requires
        lo <= hi <= v@.len(),
        pb == byte_len(v@.take(lo as int)),
        byte_len(v@) <= usize::MAX,
    ensures
        r == byte_len(v@.take(hi as int)),
{
    let mut i = lo;
    let mut b = pb;
    while i < hi
        invariant
            lo <= i <= hi <= v@.len(),
            b == byte_len(v@.take(i as int)),
            byte_len(v@) <= usize::MAX,
        decreases hi - i,
    {
        proof {
            lemma_byte_len_take(v@, i as int);
            lemma_byte_len_prefix(v@, i + 1);
        }
        b = b + char_len8_exec(v[i]);
        i = i + 1;
    }
    b
}

} // verus!

verus! {

/// `parts.join(sep)` on character vectors.
pub fn join_chars(parts: &Vec<Vec<char>>, sep: &[char]) -> (r: Vec<char>)
    ensures
        r@ == join(vv(parts), sep@),
{
    let mut r: Vec<char> = Vec::new();
    let mut i: usize = 0;
    assert(vv(parts).take(0) =~= Seq::<Seq<char>>::empty());
    while i < parts.len()
        invariant
            i <= parts@.len(),
            r@ == join(vv(parts).take(i as int), sep@),
        decreases parts@.len() - i,
    {
        let ghost prev = vv(parts).take(i as int);
        if i > 0 {
            push_all(&mut r, sep);
        }
        push_all(&mut r, &parts[i]);
        proof {
            let next = vv(parts).take(i + 1);
            assert(next.drop_last() =~= prev);
            assert(next.last() == parts@[i as int]@);
            if i == 0 {
                assert(r@ =~= next[0]);
            } else {
                assert(r@ =~= join(prev, sep@) + sep@ + next.last());
            }
        }
        i = i + 1;
    }
    assert(vv(parts).take(parts@.len() as int) =~= vv(parts));
    r
}

} // verus!

verus! {

/// `parts[lo..hi].join(sep)` on character vectors.
pub fn join_range(parts: &Vec<Vec<char>>, lo: usize, hi: usize, sep: &[char]) -> (r: Vec<char>)
    requires
        lo <= hi <= parts@.len(),
    ensures
        r@ == join(vv(parts).subrange(lo as int, hi as int), sep@),
{
    let mut r: Vec<char> = Vec::new();
    let mut i: usize = lo;
    assert(vv(parts).subrange(lo as int, lo as int) =~= Seq::<Seq<char>>::empty());
    while i < hi
        invariant
            lo <= i <= hi <= parts@.len(),
            r@ == join(vv(parts).subrange(lo as int, i as int), sep@),
        decreases hi - i,
    {
        let ghost prev = vv(parts).subrange(lo as int, i as int);
        if i > lo {
            push_all(&mut r, sep);
        }
        push_all(&mut r, &parts[i]);
        proof {
            let next = vv(parts).subrange(lo as int, i + 1);
            assert(next.drop_last() =~= prev);
            assert(next.last() == parts@[i as int]@);
            if i == lo {
                assert(r@ =~= next[0]);
            } else {
                assert(r@ =~= join(prev, sep@) + sep@ + next.last());
            }
        }
        i = i + 1;
    }
    r
}

} // verus!

verus! {

/// Push a text onto a vector of texts.
pub fn push_vec(out: &mut Vec<Vec<char>>, x: Vec<char>)
    ensures
        vv(final(out)) == vv(old(out)).push(x@),
{
    let ghost before = vv(out);
    let ghost xv = x@;
    out.push(x);
    assert(vv(out) =~= before.push(xv));
}

/// The texts of a vector of strings.
pub open spec fn sv(v: Seq<String>) -> Seq<Seq<char>> {
    v.map_values(|s: String| s@)
}

/// Push a string onto a vector of strings.
pub fn push_string(out: &mut Vec<String>, x: String)
    ensures
        sv(final(out)@) == sv(old(out)@).push(x@),
        final(out)@ == old(out)@.push(x),
{
    let ghost before = sv(out@);
    out.push(x);
    assert(sv(out@) =~= before.push(x@));
}

} // verus!
