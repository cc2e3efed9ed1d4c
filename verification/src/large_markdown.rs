//! Large Markdown inputs: line records, the section tree, and the plan of
//! leaf pages that keeps each page under a character limit.
use vstd::prelude::*;
use crate::notes::headings::{hash_run, hash_run_capped, strip_trailing_hashes, strip_trailing_hashes_idx};
use crate::strs::{
    find_char, first_index_of, from_chars, is_ascii_digit, lemma_first_index_bounds, ltrim, ltrim_idx, push_all,
    push_string, slice_copy, starts_with, starts_with_at, sv, to_chars, trim, trim_idx,
};
use crate::link::resolver::{file_stem, file_stem_exec, opt_str};
use crate::link::slug::{slug_of, slugify};
use crate::num::{decimal, decimal_chars, zero_pad, zero_pad_chars};
use crate::paths::{components, components_exec, file_name, file_name_exec, join2, join2_exec};
use vstd::string::StrSliceExecFns;

verus! {

pub const BYTE_WINDOW_CHAR_TARGET: usize = 30_000;

/// One physical line of a large input.
#[derive(Debug, Clone, PartialEq, Eq)]
pub struct LineRecord {
    pub byte_start: u64,
    pub byte_end: u64,
    pub line_number: u64,
    pub char_count: u32,
    pub kind_hint: LineKindHint,
    pub safe_split_offsets: Vec<u64>,
}

#[derive(Debug, Clone, Copy, PartialEq, Eq, Structural)]
pub enum LineKindHint {
    Plain,
    Blank,
    Heading,
    Fence,
    Table,
    List,
}

#[derive(Debug, Clone, PartialEq, Eq)]
pub struct LineScanReport {
    pub lines: Vec<LineRecord>,
    pub bytes: u64,
    pub max_buffered_bytes: usize,
}

/// A line record with the start of its text (enough to read a heading).
#[derive(Debug, Clone)]
pub struct ScannedLine {
    pub record: LineRecord,
    pub prefix: String,
}

#[derive(Debug, Clone, PartialEq, Eq)]
pub struct SectionTree {
    pub sections: Vec<SectionNode>,
    pub heading_count: usize,
}

#[derive(Debug, Clone, PartialEq, Eq)]
pub struct SectionNode {
    pub id: String,
    pub parent_id: Option<String>,
    pub level: u8,
    pub title: String,
    pub slug: String,
    pub byte_start: u64,
    pub byte_end: u64,
    pub line_start: u64,
    pub line_end: u64,
    pub children: Vec<String>,
}

#[derive(Debug, Clone, Copy, PartialEq, Eq, Structural)]
pub enum PageKind {
    Entry,
    Shell,
    Leaf,
    PagedIndex,
}

#[derive(Debug, Clone, Copy, PartialEq, Eq, Structural)]
pub enum SplitReason {
    Heading,
    Paragraph,
    List,
    Table,
    CodeFence,
    LineWindow,
    ByteWindow,
}

#[derive(Debug, Clone, Copy, PartialEq, Eq, Structural)]
pub struct ByteRange {
    pub start: u64,
    pub end: u64,
}

#[derive(Debug, Clone, Copy, PartialEq, Eq, Structural)]
pub struct LineRange {
    pub start: u64,
    pub end: u64,
}

/// One planned output page.
#[derive(Debug, Clone, PartialEq, Eq)]
pub struct PagePlan {
    pub page_id: String,
    pub page_kind: PageKind,
    pub output_path: String,
    pub source_path: Option<String>,
    pub section_path: Vec<String>,
    pub byte_ranges: Vec<ByteRange>,
    pub line_ranges: Vec<LineRange>,
    pub split_reason: SplitReason,
    pub parent: Option<String>,
    pub prev: Option<String>,
    pub next: Option<String>,
    pub estimated_chars: usize,
}

// ---------------------------------------------------------------------------
// Line kinds
// ---------------------------------------------------------------------------

/// `trim_end_matches(['\r', '\n'])`.
pub open spec fn strip_eol(s: Seq<char>) -> Seq<char>
    decreases s.len(),
{
    if s.len() > 0 && (s.last() == '\r' || s.last() == '\n') {
        strip_eol(s.drop_last())
    } else {
        s
    }
}

/// `u8::is_ascii_whitespace` of a character.
pub open spec fn is_ascii_ws(c: char) -> bool {
    c == ' ' || c == '\t' || c == '\n' || c == '\x0C' || c == '\r'
}

/// One to six `'#'`, then ASCII whitespace.
pub open spec fn is_atx_heading_spec(t: Seq<char>) -> bool {
    let h = hash_run(t);
    1 <= h <= 6 && h < t.len() && is_ascii_ws(t[h as int])
}

/// `- `, `* `, `+ `, or digits, `.`, space.
pub open spec fn is_list_item_spec(t: Seq<char>) -> bool {
    ||| starts_with(t, seq!['-', ' '])
    ||| starts_with(t, seq!['*', ' '])
    ||| starts_with(t, seq!['+', ' '])
    ||| {
        let d = first_index_of(t, '.');
        &&& d < t.len()
        &&& d > 0
        &&& forall|k: int| 0 <= k < d ==> is_ascii_digit(#[trigger] t[k])
        &&& d + 1 < t.len() && t[d + 1] == ' '
    }
}

/// The kind of a line, read from its text.
pub open spec fn classify_line_spec(line: Seq<char>) -> LineKindHint {
    let t = ltrim(strip_eol(line));
    if t.len() == 0 {
        LineKindHint::Blank
    } else if starts_with(t, seq!['`', '`', '`']) || starts_with(t, seq!['~', '~', '~']) {
        LineKindHint::Fence
    } else if is_atx_heading_spec(t) {
        LineKindHint::Heading
    } else if t[0] == '|' && t.drop_first().contains('|') {
        LineKindHint::Table
    } else if is_list_item_spec(t) {
        LineKindHint::List
    } else {
        LineKindHint::Plain
    }
}

/// The level and title of a heading line.
pub open spec fn parse_heading_spec(line: Seq<char>) -> Option<(u8, Seq<char>)> {
    let t = ltrim(strip_eol(line));
    if !is_atx_heading_spec(t) {
        None
    } else {
        let h = hash_run(t);
        Some((h as u8, trim(strip_trailing_hashes(trim(t.skip(h as int))))))
    }
}

fn strip_eol_idx(v: &[char], lo: usize, hi: usize) -> (r: usize)
    requires
        lo <= hi <= v@.len(),
    ensures
        lo <= r <= hi,
        strip_eol(v@.subrange(lo as int, hi as int)) == v@.subrange(lo as int, r as int),
{
    let mut j = hi;
    while j > lo && (v[j - 1] == '\r' || v[j - 1] == '\n')
        invariant
            lo <= j <= hi <= v@.len(),
            strip_eol(v@.subrange(lo as int, hi as int)) == strip_eol(v@.subrange(lo as int, j as int)),
        decreases j - lo,
    {
        assert(v@.subrange(lo as int, j as int).drop_last() =~= v@.subrange(lo as int, j - 1));
        j = j - 1;
    }
    j
}

fn is_ascii_ws_exec(c: char) -> (b: bool)
    ensures
        b == is_ascii_ws(c),
{
    c == ' ' || c == '\t' || c == '\n' || c == '\x0C' || c == '\r'
}

fn is_atx_heading(v: &[char], lo: usize, hi: usize) -> (r: (bool, usize))
    requires
        lo <= hi <= v@.len(),
    ensures
        r.0 == is_atx_heading_spec(v@.subrange(lo as int, hi as int)),
        r.0 ==> r.1 == hash_run(v@.subrange(lo as int, hi as int)),
{
    let n = hash_run_capped(v, lo, hi);
    if n < 1 || n > 6 || n >= hi - lo {
        return (false, n);
    }
    assert(v@.subrange(lo as int, hi as int)[n as int] == v@[lo + n]);
    (is_ascii_ws_exec(v[lo + n]), n)
}

fn is_list_item(v: &[char], lo: usize, hi: usize) -> (b: bool)
    requires
        lo <= hi <= v@.len(),
    ensures
        b == is_list_item_spec(v@.subrange(lo as int, hi as int)),
{
    let ghost t = v@.subrange(lo as int, hi as int);
    let dash = ['-', ' '];
    let star = ['*', ' '];
    let plus = ['+', ' '];
    assert(dash@ =~= seq!['-', ' ']);
    assert(star@ =~= seq!['*', ' ']);
    assert(plus@ =~= seq!['+', ' ']);
    if starts_with_at(v, lo, hi, &dash) || starts_with_at(v, lo, hi, &star) || starts_with_at(v, lo, hi, &plus) {
        return true;
    }
    let d = find_char(v, lo, hi, '.');
    proof {
        lemma_first_index_bounds(t, '.');
    }
    if d >= hi || d == lo {
        return false;
    }
    let mut k = lo;
    while k < d
        invariant
            lo <= k <= d < hi <= v@.len(),
            t == v@.subrange(lo as int, hi as int),
            forall|j: int| 0 <= j < k - lo ==> is_ascii_digit(#[trigger] t[j]),
            !starts_with(t, seq!['-', ' ']) && !starts_with(t, seq!['*', ' ']) && !starts_with(t, seq!['+', ' ']),
            d - lo == first_index_of(t, '.'),
        decreases d - k,
    {
        assert(t[k - lo] == v@[k as int]);
        if !('0' <= v[k] && v[k] <= '9') {
            assert(!is_ascii_digit(t[k - lo]));
            return false;
        }
        k = k + 1;
    }
    if d + 1 < hi && v[d + 1] == ' ' {
        assert(t[d + 1 - lo] == v@[d + 1]);
        true
    } else {
        proof {
            if d + 1 < hi {
                assert(t[d + 1 - lo] == v@[d + 1]);
            }
        }
        false
    }
}

fn contains_char_from(v: &[char], lo: usize, hi: usize, c: char) -> (b: bool)
    requires
        lo <= hi <= v@.len(),
    ensures
        b == v@.subrange(lo as int, hi as int).contains(c),
{
    let i = find_char(v, lo, hi, c);
    proof {
        lemma_first_index_bounds(v@.subrange(lo as int, hi as int), c);
    }
    if i < hi {
        assert(v@.subrange(lo as int, hi as int)[i - lo] == c);
    }
    i < hi
}

/// The kind of a line: heading, fence, table row, list item, blank or text.
pub fn classify_line(line: &str) -> (k: LineKindHint)
    ensures
        k == classify_line_spec(line@),
{
    let v = to_chars(line);
    let e = strip_eol_idx(&v, 0, v.len());
    let t = ltrim_idx(&v, 0, e);
    assert(v@.subrange(0, v@.len() as int) =~= v@);
    let ghost ts = v@.subrange(t as int, e as int);
    if t == e {
        return LineKindHint::Blank;
    }
    if starts_with_at(&v, t, e, &['`', '`', '`']) || starts_with_at(&v, t, e, &['~', '~', '~']) {
        return LineKindHint::Fence;
    }
    if is_atx_heading(&v, t, e).0 {
        return LineKindHint::Heading;
    }
    assert(ts[0] == v@[t as int]);
    assert(ts.drop_first() =~= v@.subrange(t + 1, e as int));
    if v[t] == '|' && contains_char_from(&v, t + 1, e, '|') {
        return LineKindHint::Table;
    }
    if is_list_item(&v, t, e) {
        return LineKindHint::List;
    }
    LineKindHint::Plain
}

/// The level and text of a heading line.
pub fn parse_heading(line: &str) -> (r: Option<(u8, String)>)
    ensures
        match parse_heading_spec(line@) {
            Some((l, s)) => r matches Some((l2, s2)) && l2 == l && s2@ == s,
            None => r is None,
        },
{
    let v = to_chars(line);
    let e = strip_eol_idx(&v, 0, v.len());
    let t = ltrim_idx(&v, 0, e);
    assert(v@.subrange(0, v@.len() as int) =~= v@);
    let (ok, h) = is_atx_heading(&v, t, e);
    if !ok {
        return None;
    }
    assert(v@.subrange(t as int, e as int).skip(h as int) =~= v@.subrange(t + h, e as int));
    let (a, b) = trim_idx(&v, t + h, e);
    let c = strip_trailing_hashes_idx(&v, a, b);
    let (d, f) = trim_idx(&v, a, c);
    Some((h as u8, crate::strs::from_chars(&slice_copy(&v, d, f))))
}

// ---------------------------------------------------------------------------
// Chunks of lines
// ---------------------------------------------------------------------------

/// A run of whole lines (or one window of a very long line) bound for one page.
#[derive(Debug, Clone, Copy)]
pub struct Chunk {
    pub byte_start: u64,
    pub byte_end: u64,
    pub line_start: u64,
    pub line_end: u64,
    pub chars: usize,
    pub split_reason: SplitReason,
}

/// The split offsets strictly inside `(s, e)`, in order.
pub open spec fn inner_offsets(offs: Seq<u64>, s: u64, e: u64) -> Seq<u64>
    decreases offs.len(),
{
    if offs.len() == 0 {
        seq![]
    } else if s < offs[0] && offs[0] < e {
        seq![offs[0]] + inner_offsets(offs.drop_first(), s, e)
    } else {
        inner_offsets(offs.drop_first(), s, e)
    }
}

/// The window boundaries of a line: its start, its inner split offsets, its end.
pub open spec fn line_bounds(line: LineRecord) -> Seq<u64> {
    seq![line.byte_start] + inner_offsets(line.safe_split_offsets@, line.byte_start, line.byte_end) + seq![line.byte_end]
}

pub open spec fn window_chunk(line: LineRecord, s: u64, e: u64, limit: usize) -> Chunk {
    Chunk {
        byte_start: s,
        byte_end: e,
        line_start: line.line_number,
        line_end: line.line_number,
        chars: if (line.char_count as usize) < limit { line.char_count as usize } else { limit },
        split_reason: SplitReason::ByteWindow,
    }
}

/// One chunk for each increasing pair of neighbouring boundaries.
pub open spec fn window_chunks(bs: Seq<u64>, line: LineRecord, limit: usize) -> Seq<Chunk>
    decreases bs.len(),
{
    if bs.len() < 2 {
        seq![]
    } else {
        (if bs[0] < bs[1] { seq![window_chunk(line, bs[0], bs[1], limit)] } else { Seq::<Chunk>::empty() })
            + window_chunks(bs.drop_first(), line, limit)
    }
}

/// The byte windows of a line too long for one page.
pub open spec fn byte_window_spec(line: LineRecord, limit: usize) -> Seq<Chunk> {
    window_chunks(line_bounds(line), line, limit)
}

pub open spec fn opt_seq(c: Option<Chunk>) -> Seq<Chunk> {
    match c {
        Some(x) => seq![x],
        None => seq![],
    }
}

/// The chunks closed so far, and the one still open, after `lines`.
pub open spec fn chunk_fold(lines: Seq<LineRecord>, limit: usize, reason: SplitReason) -> (Seq<Chunk>, Option<Chunk>)
    decreases lines.len(),
{
    if lines.len() == 0 {
        (seq![], None)
    } else {
        let (done, cur) = chunk_fold(lines.drop_last(), limit, reason);
        let line = lines.last();
        let lc = line.char_count as usize;
        if lc > limit {
            (done + opt_seq(cur) + byte_window_spec(line, limit), None)
        } else {
            let closes = cur matches Some(c) && c.chars > 0 && c.chars + lc > limit;
            let done2 = if closes { done + opt_seq(cur) } else { done };
            let base = if closes || cur is None {
                Chunk {
                    byte_start: line.byte_start,
                    byte_end: line.byte_end,
                    line_start: line.line_number,
                    line_end: line.line_number,
                    chars: 0,
                    split_reason: reason,
                }
            } else {
                cur->0
            };
            (done2, Some(Chunk {
                byte_start: base.byte_start,
                byte_end: line.byte_end,
                line_start: base.line_start,
                line_end: line.line_number,
                chars: (base.chars + lc) as usize,
                split_reason: base.split_reason,
            }))
        }
    }
}

/// Lines grouped into chunks of at most `limit` characters; a line longer
/// than that is cut into byte windows of its own.
pub open spec fn chunk_lines_spec(lines: Seq<LineRecord>, limit: usize, reason: SplitReason) -> Seq<Chunk> {
    chunk_fold(lines, limit, reason).0 + opt_seq(chunk_fold(lines, limit, reason).1)
}

proof fn lemma_chunk_fold_bound(lines: Seq<LineRecord>, limit: usize, reason: SplitReason)
    ensures
        chunk_fold(lines, limit, reason).1 matches Some(c) ==> c.chars <= limit,
    decreases lines.len(),
{
    if lines.len() > 0 {
        lemma_chunk_fold_bound(lines.drop_last(), limit, reason);
    }
}

fn inner_offsets_exec(offs: &Vec<u64>, s: u64, e: u64, out: &mut Vec<u64>)
    ensures
        final(out)@ == old(out)@ + inner_offsets(offs@, s, e),
{
    let ghost o0 = out@;
    let mut i: usize = 0;
    assert(offs@.skip(0) =~= offs@);
    while i < offs.len()
        invariant
            i <= offs@.len(),
            out@ + inner_offsets(offs@.skip(i as int), s, e) == o0 + inner_offsets(offs@, s, e),
        decreases offs@.len() - i,
    {
        let ghost rest = offs@.skip(i as int);
        assert(rest[0] == offs@[i as int]);
        assert(rest.drop_first() =~= offs@.skip(i + 1));
        let ghost ob = out@;
        let o = offs[i];
        if s < o && o < e {
            out.push(o);
            assert(out@ + inner_offsets(offs@.skip(i + 1), s, e) =~= ob + inner_offsets(rest, s, e));
        }
        i = i + 1;
    }
    assert(offs@.skip(i as int) =~= Seq::<u64>::empty());
    assert(out@ + Seq::<u64>::empty() =~= out@);
}

/// Cut one line longer than the limit into byte windows at its recorded safe
/// split offsets.
fn byte_window_chunks(line: &LineRecord, limit: usize) -> (r: Vec<Chunk>)
    ensures
        r@ == byte_window_spec(*line, limit),
{
    let mut bs: Vec<u64> = Vec::new();
    bs.push(line.byte_start);
    inner_offsets_exec(&line.safe_split_offsets, line.byte_start, line.byte_end, &mut bs);
    bs.push(line.byte_end);
    assert(bs@ =~= line_bounds(*line));
    let chars = if (line.char_count as usize) < limit { line.char_count as usize } else { limit };
    let mut out: Vec<Chunk> = Vec::new();
    let mut i: usize = 0;
    assert(bs@.skip(0) =~= bs@);
    let n1 = bs.len() - 1;
    while i < n1
        invariant
            n1 + 1 == bs@.len(),
            i + 1 <= bs@.len(),
            chars == (if (line.char_count as usize) < limit { line.char_count as usize } else { limit }),
            out@ + window_chunks(bs@.skip(i as int), *line, limit) == window_chunks(bs@, *line, limit),
        decreases bs@.len() - i,
    {
        let ghost rest = bs@.skip(i as int);
        assert(rest[0] == bs@[i as int] && rest[1] == bs@[i + 1]);
        assert(rest.drop_first() =~= bs@.skip(i + 1));
        let ghost ob = out@;
        if bs[i] < bs[i + 1] {
            out.push(Chunk {
                byte_start: bs[i],
                byte_end: bs[i + 1],
                line_start: line.line_number,
                line_end: line.line_number,
                chars,
                split_reason: SplitReason::ByteWindow,
            });
        }
        assert(out@ + window_chunks(bs@.skip(i + 1), *line, limit) =~= ob + window_chunks(rest, *line, limit));
        i = i + 1;
    }
    assert(window_chunks(bs@.skip(i as int), *line, limit) == Seq::<Chunk>::empty());
    assert(out@ + Seq::<Chunk>::empty() =~= out@);
    out
}

/// Group lines into chunks.
#[verifier::rlimit(40)]
fn chunk_lines(lines: &Vec<LineRecord>, limit: usize, reason: SplitReason) -> (r: Vec<Chunk>)
    ensures
        r@ == chunk_lines_spec(lines@, limit, reason),
{
    let mut chunks: Vec<Chunk> = Vec::new();
    let mut current: Option<Chunk> = None;
    let mut i: usize = 0;
    while i < lines.len()
        invariant
            i <= lines@.len(),
            (chunks@, current) == chunk_fold(lines@.take(i as int), limit, reason),
        decreases lines@.len() - i,
    {
        proof {
            assert(lines@.take(i + 1).drop_last() =~= lines@.take(i as int));
            assert(lines@.take(i + 1).last() == lines@[i as int]);
            lemma_chunk_fold_bound(lines@.take(i as int), limit, reason);
        }
        let line = &lines[i];
        let lc = line.char_count as usize;
        if lc > limit {
            match current {
                Some(c) => {
                    chunks.push(c);
                },
                None => {},
            }
            let mut w = byte_window_chunks(line, limit);
            let ghost before = chunks@;
            chunks.append(&mut w);
            current = None;
        } else {
            let closes = match current {
                Some(c) => c.chars > 0 && lc > limit - c.chars,
                None => false,
            };
            if closes {
                match current {
                    Some(c) => {
                        chunks.push(c);
                    },
                    None => {},
                }
                current = None;
            }
            let base = match current {
                Some(c) => c,
                None => Chunk {
                    byte_start: line.byte_start,
                    byte_end: line.byte_end,
                    line_start: line.line_number,
                    line_end: line.line_number,
                    chars: 0,
                    split_reason: reason,
                },
            };
            current = Some(Chunk {
                byte_start: base.byte_start,
                byte_end: line.byte_end,
                line_start: base.line_start,
                line_end: line.line_number,
                chars: base.chars + lc,
                split_reason: base.split_reason,
            });
        }
        i = i + 1;
    }
    assert(lines@.take(i as int) =~= lines@);
    match current {
        Some(c) => {
            chunks.push(c);
        },
        None => {},
    }
    chunks
}

/// Why the pages of an input are split, from the kinds of its lines.
pub open spec fn choose_split_reason_spec(lines: Seq<LineRecord>, heading_count: usize, limit: usize) -> SplitReason {
    if exists|i: int| 0 <= i < lines.len() && (#[trigger] lines[i]).char_count as usize > limit {
        SplitReason::ByteWindow
    } else if exists|i: int| 0 <= i < lines.len() && (#[trigger] lines[i]).kind_hint == LineKindHint::Fence {
        SplitReason::CodeFence
    } else if exists|i: int| 0 <= i < lines.len() && (#[trigger] lines[i]).kind_hint == LineKindHint::Table {
        SplitReason::Table
    } else if heading_count > 1 {
        SplitReason::Heading
    } else if heading_count == 0 {
        SplitReason::Paragraph
    } else {
        SplitReason::LineWindow
    }
}

fn any_line(lines: &Vec<LineRecord>, limit: usize, what: u8) -> (b: bool)
    requires
        what < 3,
    ensures
        what == 0 ==> (b <==> exists|i: int| 0 <= i < lines@.len() && (#[trigger] lines@[i]).char_count as usize > limit),
        what == 1 ==> (b <==> exists|i: int| 0 <= i < lines@.len() && (#[trigger] lines@[i]).kind_hint == LineKindHint::Fence),
        what == 2 ==> (b <==> exists|i: int| 0 <= i < lines@.len() && (#[trigger] lines@[i]).kind_hint == LineKindHint::Table),
{
    let mut i: usize = 0;
    while i < lines.len()
        invariant
            i <= lines@.len(),
            what < 3,
            what == 0 ==> forall|j: int| 0 <= j < i ==> !((#[trigger] lines@[j]).char_count as usize > limit),
            what == 1 ==> forall|j: int| 0 <= j < i ==> (#[trigger] lines@[j]).kind_hint != LineKindHint::Fence,
            what == 2 ==> forall|j: int| 0 <= j < i ==> (#[trigger] lines@[j]).kind_hint != LineKindHint::Table,
        decreases lines@.len() - i,
    {
        let l = &lines[i];
        let hit = if what == 0 {
            l.char_count as usize > limit
        } else if what == 1 {
            l.kind_hint == LineKindHint::Fence
        } else {
            l.kind_hint == LineKindHint::Table
        };
        if hit {
            return true;
        }
        i = i + 1;
    }
    false
}

/// The reason for splitting: an overlong line (byte windows), then a fence,
/// then a table, then the heading count.
fn choose_split_reason(report: &LineScanReport, tree: &SectionTree, limit: usize) -> (r: SplitReason)
    ensures
        r == choose_split_reason_spec(report.lines@, tree.heading_count, limit),
{
    if any_line(&report.lines, limit, 0) {
        return SplitReason::ByteWindow;
    }
    if any_line(&report.lines, limit, 1) {
        return SplitReason::CodeFence;
    }
    if any_line(&report.lines, limit, 2) {
        return SplitReason::Table;
    }
    if tree.heading_count > 1 {
        return SplitReason::Heading;
    }
    if tree.heading_count == 0 {
        return SplitReason::Paragraph;
    }
    SplitReason::LineWindow
}

// ---------------------------------------------------------------------------
// Planning leaf pages
// ---------------------------------------------------------------------------

/// The content of a [`PagePlan`].
pub struct PlanV {
    pub page_id: Seq<char>,
    pub page_kind: PageKind,
    pub output_path: Seq<char>,
    pub source_path: Option<Seq<char>>,
    pub section_path: Seq<Seq<char>>,
    pub byte_ranges: Seq<ByteRange>,
    pub line_ranges: Seq<LineRange>,
    pub split_reason: SplitReason,
    pub parent: Option<Seq<char>>,
    pub prev: Option<Seq<char>>,
    pub next: Option<Seq<char>>,
    pub estimated_chars: usize,
}

impl View for PagePlan {
    type V = PlanV;

    open spec fn view(&self) -> PlanV {
        PlanV {
            page_id: self.page_id@,
            page_kind: self.page_kind,
            output_path: self.output_path@,
            source_path: opt_str(self.source_path),
            section_path: sv(self.section_path@),
            byte_ranges: self.byte_ranges@,
            line_ranges: self.line_ranges@,
            split_reason: self.split_reason,
            parent: opt_str(self.parent),
            prev: opt_str(self.prev),
            next: opt_str(self.next),
            estimated_chars: self.estimated_chars,
        }
    }
}

pub open spec fn plans_view(v: Seq<PagePlan>) -> Seq<PlanV> {
    v.map_values(|p: PagePlan| p@)
}

/// The slug naming the pages of a large source: its file stem slugified,
/// else `note`.
pub open spec fn entry_slug_of(src: Seq<char>) -> Seq<char> {
    match file_stem(src) {
        Some(st) => if slug_of(st).len() > 0 { slug_of(st) } else { "note"@ },
        None => "note"@,
    }
}

/// The label of a source: its file name, else `source.md`.
pub open spec fn source_label_of(src: Seq<char>) -> Seq<char> {
    if components(src).len() == 0 {
        "source.md"@
    } else {
        file_name(src)
    }
}

/// `part-NNN.md`.
pub open spec fn part_name(n: nat) -> Seq<char> {
    "part-"@ + zero_pad(decimal(n), 3) + ".md"@
}

/// The most characters a leaf holds: the hard limit less a reserve of 10,000
/// for metadata, but never under the byte-window granularity.
pub open spec fn chunk_limit_of(hard: usize) -> usize {
    let a: int = if hard >= 10_000 { hard - 10_000 } else { 0 };
    if a > BYTE_WINDOW_CHAR_TARGET { a as usize } else { BYTE_WINDOW_CHAR_TARGET }
}

pub open spec fn entry_plan(src: Seq<char>) -> PlanV {
    PlanV {
        page_id: entry_slug_of(src) + ":entry"@,
        page_kind: PageKind::Entry,
        output_path: join2(join2("fragments"@, entry_slug_of(src)), "index.md"@),
        source_path: Some(src),
        section_path: seq![source_label_of(src)],
        byte_ranges: seq![],
        line_ranges: seq![],
        split_reason: SplitReason::Heading,
        parent: None,
        prev: None,
        next: None,
        estimated_chars: 0,
    }
}

/// The plan of the `idx`-th of `count` leaves.
pub open spec fn leaf_plan(src: Seq<char>, idx: int, count: int, c: Chunk) -> PlanV {
    PlanV {
        page_id: entry_slug_of(src) + ":part-"@ + zero_pad(decimal((idx + 1) as nat), 3),
        page_kind: PageKind::Leaf,
        output_path: join2(join2("fragments"@, entry_slug_of(src)), part_name((idx + 1) as nat)),
        source_path: Some(src),
        section_path: seq![source_label_of(src), "Part "@ + decimal((idx + 1) as nat)],
        byte_ranges: seq![ByteRange { start: c.byte_start, end: c.byte_end }],
        line_ranges: seq![LineRange { start: c.line_start, end: c.line_end }],
        split_reason: c.split_reason,
        parent: Some("index.md"@),
        prev: if idx > 0 { Some(part_name(idx as nat)) } else { None },
        next: if idx + 1 < count { Some(part_name((idx + 2) as nat)) } else { None },
        estimated_chars: c.chars,
    }
}

/// The entry page, then one leaf per chunk.
pub open spec fn plan_leaf_pages_spec(src: Seq<char>, lines: Seq<LineRecord>, heading_count: usize, hard: usize) -> Seq<PlanV> {
    let limit = chunk_limit_of(hard);
    let cs = chunk_lines_spec(lines, limit, choose_split_reason_spec(lines, heading_count, limit));
    seq![entry_plan(src)] + cs.map(|i: int, c: Chunk| leaf_plan(src, i, cs.len() as int, c))
}

proof fn lemma_windows_bound(bs: Seq<u64>, line: LineRecord, limit: usize)
    ensures
        forall|i: int| 0 <= i < window_chunks(bs, line, limit).len() ==> (#[trigger] window_chunks(bs, line, limit)[i]).chars <= limit,
    decreases bs.len(),
{
    if bs.len() >= 2 {
        lemma_windows_bound(bs.drop_first(), line, limit);
    }
}

proof fn lemma_chunk_fold_all_bound(lines: Seq<LineRecord>, limit: usize, reason: SplitReason)
    ensures
        forall|i: int| 0 <= i < chunk_fold(lines, limit, reason).0.len() ==> (#[trigger] chunk_fold(lines, limit, reason).0[i]).chars <= limit,
        chunk_fold(lines, limit, reason).1 matches Some(c) ==> c.chars <= limit,
    decreases lines.len(),
{
    if lines.len() > 0 {
        lemma_chunk_fold_all_bound(lines.drop_last(), limit, reason);
        lemma_chunk_fold_bound(lines.drop_last(), limit, reason);
        lemma_chunk_fold_bound(lines, limit, reason);
        let line = lines.last();
        lemma_windows_bound(line_bounds(line), line, limit);
    }
}

/// Chunks that cover the bytes from `a` to `b` one after another, none empty.
pub open spec fn chunks_cover(cs: Seq<Chunk>, a: u64, b: u64) -> bool {
    &&& cs.len() > 0
    &&& cs[0].byte_start == a
    &&& cs.last().byte_end == b
    &&& forall|i: int| 0 <= i < cs.len() - 1 ==> #[trigger] cs[i].byte_end == cs[i + 1].byte_start
    &&& forall|i: int| 0 <= i < cs.len() ==> (#[trigger] cs[i]).byte_start < cs[i].byte_end
}

/// Lines that follow one another, none empty, each with its cutting points
/// in increasing order.
pub open spec fn lines_follow(lines: Seq<LineRecord>) -> bool {
    &&& forall|i: int| 0 <= i < lines.len() - 1 ==> #[trigger] lines[i].byte_end == lines[i + 1].byte_start
    &&& forall|i: int| 0 <= i < lines.len() ==> (#[trigger] lines[i]).byte_start < lines[i].byte_end
    &&& forall|i: int, j: int, k: int| 0 <= i < lines.len() && 0 <= j < k < lines[i].safe_split_offsets@.len()
        ==> #[trigger] lines[i].safe_split_offsets@[j] < #[trigger] lines[i].safe_split_offsets@[k]
}

proof fn lemma_cover_concat(x: Seq<Chunk>, y: Seq<Chunk>, a: u64, b: u64, c: u64)
    requires
        chunks_cover(x, a, b),
        chunks_cover(y, b, c),
    ensures
        chunks_cover(x + y, a, c),
{
    let z = x + y;
    assert forall|i: int| 0 <= i < z.len() - 1 implies #[trigger] z[i].byte_end == z[i + 1].byte_start by {
        if i < x.len() - 1 {
        } else if i == x.len() - 1 {
            assert(z[i] == x.last());
            assert(z[i + 1] == y[0]);
        } else {
            assert(z[i] == y[i - x.len()]);
            assert(z[i + 1] == y[i - x.len() + 1]);
        }
    }
    assert forall|i: int| 0 <= i < z.len() implies (#[trigger] z[i]).byte_start < z[i].byte_end by {
        if i >= x.len() {
            assert(z[i] == y[i - x.len()]);
        }
    }
}

pub open spec fn increasing(bs: Seq<u64>) -> bool {
    forall|j: int, k: int| 0 <= j < k < bs.len() ==> #[trigger] bs[j] < #[trigger] bs[k]
}

proof fn lemma_inner_offsets(offs: Seq<u64>, s: u64, e: u64)
    requires
        increasing(offs),
    ensures
        increasing(inner_offsets(offs, s, e)),
        forall|j: int| 0 <= j < inner_offsets(offs, s, e).len() ==> s < #[trigger] inner_offsets(offs, s, e)[j] < e,
        forall|j: int| 0 <= j < inner_offsets(offs, s, e).len() ==> offs.len() > 0 && offs[0] <= #[trigger] inner_offsets(offs, s, e)[j],
    decreases offs.len(),
{
    if offs.len() > 0 {
        let rest = offs.drop_first();
        assert(increasing(rest)) by {
            assert forall|j: int, k: int| 0 <= j < k < rest.len() implies #[trigger] rest[j] < #[trigger] rest[k] by {
                assert(rest[j] == offs[j + 1]);
                assert(rest[k] == offs[k + 1]);
            }
        }
        lemma_inner_offsets(rest, s, e);
        let r = inner_offsets(rest, s, e);
        assert forall|j: int| 0 <= j < r.len() implies offs[0] < #[trigger] r[j] by {
            assert(rest[0] == offs[1]);
            assert(offs[0] < offs[1]);
        }
        if s < offs[0] && offs[0] < e {
            let x = seq![offs[0]] + r;
            assert forall|j: int, k: int| 0 <= j < k < x.len() implies #[trigger] x[j] < #[trigger] x[k] by {
                if j == 0 {
                    assert(x[k] == r[k - 1]);
                } else {
                    assert(x[j] == r[j - 1]);
                    assert(x[k] == r[k - 1]);
                }
            }
            assert forall|j: int| 0 <= j < x.len() implies s < #[trigger] x[j] < e && offs[0] <= x[j] by {
                if j > 0 {
                    assert(x[j] == r[j - 1]);
                }
            }
        } else {
            assert forall|j: int| 0 <= j < r.len() implies offs[0] <= #[trigger] r[j] by {
                assert(rest[0] == offs[1]);
            }
        }
    }
}

proof fn lemma_windows_cover(bs: Seq<u64>, line: LineRecord, limit: usize)
    requires
        bs.len() >= 2,
        increasing(bs),
    ensures
        chunks_cover(window_chunks(bs, line, limit), bs[0], bs.last()),
    decreases bs.len(),
{
    let w = window_chunk(line, bs[0], bs[1], limit);
    let rest = bs.drop_first();
    assert(bs[0] < bs[1]);
    if bs.len() == 2 {
        assert(window_chunks(rest, line, limit) =~= Seq::<Chunk>::empty());
        assert(window_chunks(bs, line, limit) =~= seq![w]);
    } else {
        assert(increasing(rest)) by {
            assert forall|j: int, k: int| 0 <= j < k < rest.len() implies #[trigger] rest[j] < #[trigger] rest[k] by {
                assert(rest[j] == bs[j + 1]);
                assert(rest[k] == bs[k + 1]);
            }
        }
        lemma_windows_cover(rest, line, limit);
        assert(chunks_cover(seq![w], bs[0], bs[1]));
        lemma_cover_concat(seq![w], window_chunks(rest, line, limit), bs[0], bs[1], bs.last());
    }
}

proof fn lemma_line_windows(line: LineRecord, limit: usize)
    requires
        line.byte_start < line.byte_end,
        increasing(line.safe_split_offsets@),
    ensures
        chunks_cover(byte_window_spec(line, limit), line.byte_start, line.byte_end),
{
    let inner = inner_offsets(line.safe_split_offsets@, line.byte_start, line.byte_end);
    lemma_inner_offsets(line.safe_split_offsets@, line.byte_start, line.byte_end);
    let bs = line_bounds(line);
    assert(bs == seq![line.byte_start] + inner + seq![line.byte_end]);
    assert(increasing(bs)) by {
        assert forall|j: int, k: int| 0 <= j < k < bs.len() implies #[trigger] bs[j] < #[trigger] bs[k] by {
            if j == 0 {
                if k <= inner.len() {
                    assert(bs[k] == inner[k - 1]);
                }
            } else if k <= inner.len() {
                assert(bs[j] == inner[j - 1]);
                assert(bs[k] == inner[k - 1]);
            } else {
                assert(bs[j] == inner[j - 1]);
            }
        }
    }
    lemma_windows_cover(bs, line, limit);
}

proof fn lemma_fold_cover(lines: Seq<LineRecord>, limit: usize, reason: SplitReason)
    requires
        lines.len() > 0,
        lines_follow(lines),
    ensures
        chunks_cover(chunk_fold(lines, limit, reason).0 + opt_seq(chunk_fold(lines, limit, reason).1), lines[0].byte_start, lines.last().byte_end),
    decreases lines.len(),
{
    let prev = lines.drop_last();
    let line = lines.last();
    let (done, cur) = chunk_fold(prev, limit, reason);
    let lc = line.char_count as usize;
    assert(line == lines[lines.len() - 1]);
    assert(line.byte_start < line.byte_end);
    assert(increasing(line.safe_split_offsets@)) by {
        assert forall|j: int, k: int| 0 <= j < k < line.safe_split_offsets@.len() implies #[trigger] line.safe_split_offsets@[j] < #[trigger] line.safe_split_offsets@[k] by {
            assert(lines[lines.len() - 1].safe_split_offsets@[j] < lines[lines.len() - 1].safe_split_offsets@[k]);
        }
    }
    let single = Chunk { byte_start: line.byte_start, byte_end: line.byte_end, line_start: line.line_number, line_end: line.line_number, chars: lc, split_reason: reason };
    if prev.len() == 0 {
        assert(done =~= Seq::<Chunk>::empty());
        if lc > limit {
            lemma_line_windows(line, limit);
            assert(chunk_fold(lines, limit, reason).0 =~= byte_window_spec(line, limit));
        }
    } else {
        assert(lines_follow(prev)) by {
            assert forall|i: int| 0 <= i < prev.len() - 1 implies #[trigger] prev[i].byte_end == prev[i + 1].byte_start by {
                assert(prev[i] == lines[i]);
                assert(prev[i + 1] == lines[i + 1]);
            }
            assert forall|i: int| 0 <= i < prev.len() implies (#[trigger] prev[i]).byte_start < prev[i].byte_end by {
                assert(prev[i] == lines[i]);
            }
            assert forall|i: int, j: int, k: int| 0 <= i < prev.len() && 0 <= j < k < prev[i].safe_split_offsets@.len()
                implies #[trigger] prev[i].safe_split_offsets@[j] < #[trigger] prev[i].safe_split_offsets@[k] by {
                assert(prev[i] == lines[i]);
            }
        }
        lemma_fold_cover(prev, limit, reason);
        let all = done + opt_seq(cur);
        let mid = prev.last().byte_end;
        assert(prev.last() == lines[lines.len() - 2]);
        assert(mid == line.byte_start);
        assert(prev[0] == lines[0]);
        if lc > limit {
            lemma_line_windows(line, limit);
            lemma_cover_concat(all, byte_window_spec(line, limit), lines[0].byte_start, mid, line.byte_end);
            assert(chunk_fold(lines, limit, reason).0 + opt_seq(chunk_fold(lines, limit, reason).1) =~= all + byte_window_spec(line, limit));
        } else {
            let closes = cur matches Some(c) && c.chars > 0 && c.chars + lc > limit;
            if closes || cur is None {
                let nc = Chunk { byte_start: line.byte_start, byte_end: line.byte_end, line_start: line.line_number, line_end: line.line_number, chars: (0 + lc) as usize, split_reason: reason };
                assert(chunks_cover(seq![nc], mid, line.byte_end));
                lemma_cover_concat(all, seq![nc], lines[0].byte_start, mid, line.byte_end);
                assert(chunk_fold(lines, limit, reason).0 + opt_seq(chunk_fold(lines, limit, reason).1) =~= all + seq![nc]);
            } else {
                let c = cur->0;
                let nc = Chunk { byte_start: c.byte_start, byte_end: line.byte_end, line_start: c.line_start, line_end: line.line_number, chars: (c.chars + lc) as usize, split_reason: c.split_reason };
                let res = done + seq![nc];
                assert(all == done + seq![c]);
                assert(all.last() == c);
                assert(chunk_fold(lines, limit, reason).0 + opt_seq(chunk_fold(lines, limit, reason).1) =~= res);
                assert forall|i: int| 0 <= i < res.len() - 1 implies #[trigger] res[i].byte_end == res[i + 1].byte_start by {
                    assert(res[i] == all[i]);
                    if i + 1 < res.len() - 1 {
                        assert(res[i + 1] == all[i + 1]);
                    } else {
                        assert(all[i + 1] == c);
                    }
                }
                assert forall|i: int| 0 <= i < res.len() implies (#[trigger] res[i]).byte_start < res[i].byte_end by {
                    if i < res.len() - 1 {
                        assert(res[i] == all[i]);
                    } else {
                        assert(all[i] == c);
                    }
                }
                assert(res[0].byte_start == lines[0].byte_start) by {
                    if done.len() > 0 {
                        assert(res[0] == all[0]);
                    } else {
                        assert(all[0] == c);
                    }
                }
            }
        }
    }
}

/// Law: the leaves of a large input cover its lines' bytes one after
/// another: the first starts where the first line starts, each starts where
/// the one before it ends, the last ends where the last line ends, and none
/// is empty.
pub proof fn lemma_leaves_cover(src: Seq<char>, lines: Seq<LineRecord>, heading_count: usize, hard: usize)
    requires
        lines.len() > 0,
        lines_follow(lines),
    ensures
        ({
            let ps = plan_leaf_pages_spec(src, lines, heading_count, hard);
            &&& ps.len() >= 2
            &&& ps[1].byte_ranges[0].start == lines[0].byte_start
            &&& ps.last().byte_ranges[0].end == lines.last().byte_end
            &&& forall|i: int| 1 <= i < ps.len() - 1 ==> #[trigger] ps[i].byte_ranges[0].end == ps[i + 1].byte_ranges[0].start
            &&& forall|i: int| 1 <= i < ps.len() ==> (#[trigger] ps[i]).byte_ranges[0].start < ps[i].byte_ranges[0].end
        }),
{
    let limit = chunk_limit_of(hard);
    let reason = choose_split_reason_spec(lines, heading_count, limit);
    lemma_fold_cover(lines, limit, reason);
    let cs = chunk_lines_spec(lines, limit, reason);
    let ps = plan_leaf_pages_spec(src, lines, heading_count, hard);
    assert(ps.len() == cs.len() + 1);
    assert forall|i: int| 1 <= i < ps.len() implies (#[trigger] ps[i]).byte_ranges[0] == (ByteRange { start: cs[i - 1].byte_start, end: cs[i - 1].byte_end }) by {
        assert(ps[i] == leaf_plan(src, i - 1, cs.len() as int, cs[i - 1]));
    }
    assert(ps[1].byte_ranges[0].start == cs[0].byte_start);
    assert(ps.last() == ps[ps.len() - 1]);
    assert(ps[ps.len() - 1].byte_ranges[0].end == cs.last().byte_end);
    assert forall|i: int| 1 <= i < ps.len() - 1 implies #[trigger] ps[i].byte_ranges[0].end == ps[i + 1].byte_ranges[0].start by {
        assert(ps[i + 1].byte_ranges[0].start == cs[i].byte_start);
    }
    assert forall|i: int| 1 <= i < ps.len() implies (#[trigger] ps[i]).byte_ranges[0].start < ps[i].byte_ranges[0].end by {
        assert(ps[i].byte_ranges[0].start == cs[i - 1].byte_start);
    }
}

/// Law: every leaf of a large input holds at most `chunk_limit_of(hard)`
/// characters, the hard limit less 10,000 but never under 30,000, and has
/// exactly one byte range and one line range.
pub proof fn lemma_leaves_within_limit(src: Seq<char>, lines: Seq<LineRecord>, heading_count: usize, hard: usize)
    ensures
        forall|i: int| 1 <= i < plan_leaf_pages_spec(src, lines, heading_count, hard).len() ==> {
            let p = #[trigger] plan_leaf_pages_spec(src, lines, heading_count, hard)[i];
            &&& p.page_kind == PageKind::Leaf
            &&& p.estimated_chars <= chunk_limit_of(hard)
            &&& p.byte_ranges.len() == 1
            &&& p.line_ranges.len() == 1
        },
{
    let limit = chunk_limit_of(hard);
    let reason = choose_split_reason_spec(lines, heading_count, limit);
    lemma_chunk_fold_all_bound(lines, limit, reason);
    let cs = chunk_lines_spec(lines, limit, reason);
    let d = chunk_fold(lines, limit, reason).0;
    assert forall|i: int| 0 <= i < cs.len() implies (#[trigger] cs[i]).chars <= limit by {
        if i < d.len() {
            assert(cs[i] == d[i]);
        }
    }
}

proof fn lemma_part_names_distinct(a: nat, b: nat)
    requires
        part_name(a) == part_name(b),
    ensures
        a == b,
{
    reveal_strlit("part-");
    reveal_strlit(".md");
    let x = zero_pad(decimal(a), 3);
    let y = zero_pad(decimal(b), 3);
    assert(x =~= part_name(a).subrange(5, part_name(a).len() - 3));
    assert(y =~= part_name(b).subrange(5, part_name(b).len() - 3));
    crate::num::lemma_padded_injective(a, b, 3);
}

/// Law: the pages planned for a large source have pairwise distinct output
/// paths and pairwise distinct page ids (the entry page's `index.md` and
/// `{slug}:entry`, then `part-001.md`, `part-002.md`, ... and
/// `{slug}:part-001`, ...).
pub proof fn lemma_plan_names_distinct(src: Seq<char>, lines: Seq<LineRecord>, heading_count: usize, hard: usize)
    ensures
        forall|i: int, j: int| 0 <= i < j < plan_leaf_pages_spec(src, lines, heading_count, hard).len() ==>
            (#[trigger] plan_leaf_pages_spec(src, lines, heading_count, hard)[i]).output_path
                != (#[trigger] plan_leaf_pages_spec(src, lines, heading_count, hard)[j]).output_path
            && plan_leaf_pages_spec(src, lines, heading_count, hard)[i].page_id
                != plan_leaf_pages_spec(src, lines, heading_count, hard)[j].page_id,
{
    let limit = chunk_limit_of(hard);
    let cs = chunk_lines_spec(lines, limit, choose_split_reason_spec(lines, heading_count, limit));
    let ps = plan_leaf_pages_spec(src, lines, heading_count, hard);
    let slug = entry_slug_of(src);
    let dir = join2("fragments"@, slug);
    reveal_strlit("fragments");
    reveal_strlit("index.md");
    reveal_strlit("part-");
    reveal_strlit(".md");
    reveal_strlit(":entry");
    reveal_strlit(":part-");
    assert(dir.len() > 0);
    assert forall|i: int, j: int| 0 <= i < j < ps.len() implies
        (#[trigger] ps[i]).output_path != (#[trigger] ps[j]).output_path && ps[i].page_id != ps[j].page_id by {
        assert(ps[j] == leaf_plan(src, j - 1, cs.len() as int, cs[j - 1]));
        let pj = part_name(j as nat);
        let idj = slug + ":part-"@ + zero_pad(decimal(j as nat), 3);
        assert(ps[j].output_path == dir + seq!['/'] + pj);
        assert(ps[j].page_id == idj);
        if i == 0 {
            assert(ps[0] == entry_plan(src));
            assert(ps[0].output_path == dir + seq!['/'] + "index.md"@);
            if ps[0].output_path == ps[j].output_path {
                assert(ps[0].output_path[dir.len() as int + 1] == 'i');
                assert(ps[j].output_path[dir.len() as int + 1] == 'p');
            }
            if ps[0].page_id == ps[j].page_id {
                assert(ps[0].page_id[slug.len() as int + 1] == 'e');
                assert(ps[j].page_id[slug.len() as int + 1] == 'p');
            }
        } else {
            assert(ps[i] == leaf_plan(src, i - 1, cs.len() as int, cs[i - 1]));
            let pi = part_name(i as nat);
            let idi = slug + ":part-"@ + zero_pad(decimal(i as nat), 3);
            if ps[i].output_path == ps[j].output_path {
                let n: int = dir.len() as int + 1;
                assert(pi =~= ps[i].output_path.subrange(n, ps[i].output_path.len() as int));
                assert(pj =~= ps[j].output_path.subrange(n, ps[j].output_path.len() as int));
                lemma_part_names_distinct(i as nat, j as nat);
            }
            if ps[i].page_id == ps[j].page_id {
                let n: int = slug.len() as int + 6;
                assert(zero_pad(decimal(i as nat), 3) =~= idi.subrange(n, idi.len() as int));
                assert(zero_pad(decimal(j as nat), 3) =~= idj.subrange(n, idj.len() as int));
                crate::num::lemma_padded_injective(i as nat, j as nat, 3);
            }
        }
    }
}

proof fn lemma_entry_at(src: Seq<char>, lines: Seq<LineRecord>, heading_count: usize, hard: usize, ps: Seq<PlanV>, d: Seq<char>)
    requires
        ps == plan_leaf_pages_spec(src, lines, heading_count, hard),
        d == join2("fragments"@, entry_slug_of(src)) + seq!['/'],
    ensures
        ps.len() >= 1,
        ps[0].output_path == d + "index.md"@,
        ps[0].page_kind == PageKind::Entry,
        ps[0].parent is None && ps[0].prev is None && ps[0].next is None,
{
    let dir = join2("fragments"@, entry_slug_of(src));
    reveal_strlit("fragments");
    assert(dir.len() > 0);
    assert(ps[0] == entry_plan(src));
    assert(ps[0].output_path =~= d + "index.md"@);
}

proof fn lemma_leaf_at(src: Seq<char>, lines: Seq<LineRecord>, heading_count: usize, hard: usize, ps: Seq<PlanV>, d: Seq<char>, i: int)
    requires
        ps == plan_leaf_pages_spec(src, lines, heading_count, hard),
        d == join2("fragments"@, entry_slug_of(src)) + seq!['/'],
        1 <= i < ps.len(),
    ensures
        ps[i].output_path == d + part_name(i as nat),
        ps[i].parent == Some("index.md"@),
        ps[i].page_kind == PageKind::Leaf,
        ps[i].prev == (if i > 1 { Some(part_name((i - 1) as nat)) } else { None }),
        ps[i].next == (if i + 1 < ps.len() { Some(part_name((i + 1) as nat)) } else { None }),
{
    let limit = chunk_limit_of(hard);
    let cs = chunk_lines_spec(lines, limit, choose_split_reason_spec(lines, heading_count, limit));
    let dir = join2("fragments"@, entry_slug_of(src));
    reveal_strlit("fragments");
    assert(dir.len() > 0);
    assert(ps.len() == cs.len() + 1);
    assert(ps[i] == leaf_plan(src, i - 1, cs.len() as int, cs[i - 1]));
    assert(ps[i].output_path =~= d + part_name(i as nat));
}

proof fn lemma_chain_next(ps: Seq<PlanV>, d: Seq<char>, name: spec_fn(nat) -> Seq<char>)
    requires
        forall|a: nat, b: nat| #[trigger] name(a) == #[trigger] name(b) ==> a == b,
        forall|a: nat| #[trigger] name(a).len() > 0,
        ps.len() >= 1,
        forall|i: int| 1 <= i < ps.len() ==> {
            &&& (#[trigger] ps[i]).output_path == d + name(i as nat)
            &&& ps[i].prev == (if i > 1 { Some(name((i - 1) as nat)) } else { None })
            &&& ps[i].next == (if i + 1 < ps.len() { Some(name((i + 1) as nat)) } else { None })
        },
    ensures
        forall|i: int| #![trigger ps[i].next] 1 <= i < ps.len() - 1 ==>
            (ps[i].next matches Some(n) && ps[i + 1].output_path == d + n),
{
    assert forall|i: int| #![trigger ps[i].next] 1 <= i < ps.len() - 1 implies
        (ps[i].next matches Some(n) && ps[i + 1].output_path == d + n) by {
        assert(ps[i + 1].output_path == d + name((i + 1) as nat));
    }
}

proof fn lemma_chain_prev(ps: Seq<PlanV>, d: Seq<char>, name: spec_fn(nat) -> Seq<char>)
    requires
        forall|a: nat, b: nat| #[trigger] name(a) == #[trigger] name(b) ==> a == b,
        forall|a: nat| #[trigger] name(a).len() > 0,
        ps.len() >= 1,
        forall|i: int| 1 <= i < ps.len() ==> {
            &&& (#[trigger] ps[i]).output_path == d + name(i as nat)
            &&& ps[i].prev == (if i > 1 { Some(name((i - 1) as nat)) } else { None })
            &&& ps[i].next == (if i + 1 < ps.len() { Some(name((i + 1) as nat)) } else { None })
        },
    ensures
        forall|i: int| #![trigger ps[i + 1].prev] 1 <= i < ps.len() - 1 ==>
            (ps[i + 1].prev matches Some(p) && ps[i].output_path == d + p),
{
    assert forall|i: int| #![trigger ps[i + 1].prev] 1 <= i < ps.len() - 1 implies
        (ps[i + 1].prev matches Some(p) && ps[i].output_path == d + p) by {
        assert(ps[i].output_path == d + name(i as nat));
        assert(ps[i + 1].prev == Some(name(i as nat)));
    }
}

proof fn lemma_chain_no_self(ps: Seq<PlanV>, d: Seq<char>, name: spec_fn(nat) -> Seq<char>)
    requires
        forall|a: nat, b: nat| #[trigger] name(a) == #[trigger] name(b) ==> a == b,
        forall|a: nat| #[trigger] name(a).len() > 0,
        ps.len() >= 1,
        forall|i: int| 1 <= i < ps.len() ==> {
            &&& (#[trigger] ps[i]).output_path == d + name(i as nat)
            &&& ps[i].prev == (if i > 1 { Some(name((i - 1) as nat)) } else { None })
            &&& ps[i].next == (if i + 1 < ps.len() { Some(name((i + 1) as nat)) } else { None })
        },
    ensures
        forall|i: int| 1 <= i < ps.len() ==>
            (#[trigger] ps[i]).prev != Some(ps[i].output_path.skip(d.len() as int))
            && ps[i].next != Some(ps[i].output_path.skip(d.len() as int)),
        forall|i: int| 1 <= i < ps.len() ==>
            (#[trigger] ps[i]).output_path.len() > d.len()
            && ps[i].output_path.subrange(0, d.len() as int) == d,
{
    assert forall|i: int| 1 <= i < ps.len() implies
        (#[trigger] ps[i]).prev != Some(ps[i].output_path.skip(d.len() as int))
        && ps[i].next != Some(ps[i].output_path.skip(d.len() as int)) by {
        assert(ps[i].output_path.skip(d.len() as int) =~= name(i as nat));
        if i > 1 {
            assert(name((i - 1) as nat) != name(i as nat));
        }
        if i + 1 < ps.len() {
            assert(name((i + 1) as nat) != name(i as nat));
        }
    }
    assert forall|i: int| 1 <= i < ps.len() implies
        (#[trigger] ps[i]).output_path.len() > d.len()
        && ps[i].output_path.subrange(0, d.len() as int) == d by {
        assert(name(i as nat).len() > 0);
        assert(ps[i].output_path.subrange(0, d.len() as int) =~= d);
    }
}

proof fn lemma_leaves_all(src: Seq<char>, lines: Seq<LineRecord>, heading_count: usize, hard: usize, ps: Seq<PlanV>, d: Seq<char>)
    requires
        ps == plan_leaf_pages_spec(src, lines, heading_count, hard),
        d == join2("fragments"@, entry_slug_of(src)) + seq!['/'],
    ensures
        forall|i: int| 1 <= i < ps.len() ==> {
            &&& (#[trigger] ps[i]).output_path == d + part_name(i as nat)
            &&& ps[i].parent == Some("index.md"@)
            &&& ps[i].page_kind == PageKind::Leaf
            &&& ps[i].prev == (if i > 1 { Some(part_name((i - 1) as nat)) } else { None })
            &&& ps[i].next == (if i + 1 < ps.len() { Some(part_name((i + 1) as nat)) } else { None })
        },
{
    assert forall|i: int| 1 <= i < ps.len() implies {
        &&& (#[trigger] ps[i]).output_path == d + part_name(i as nat)
        &&& ps[i].parent == Some("index.md"@)
        &&& ps[i].page_kind == PageKind::Leaf
        &&& ps[i].prev == (if i > 1 { Some(part_name((i - 1) as nat)) } else { None })
        &&& ps[i].next == (if i + 1 < ps.len() { Some(part_name((i + 1) as nat)) } else { None })
    } by {
        lemma_leaf_at(src, lines, heading_count, hard, ps, d, i);
    }
}

proof fn lemma_chain_all(ps: Seq<PlanV>, d: Seq<char>)
    requires
        ps.len() >= 1,
        ps[0].output_path == d + "index.md"@,
        ps[0].page_kind == PageKind::Entry,
        ps[0].parent is None && ps[0].prev is None && ps[0].next is None,
        forall|i: int| 1 <= i < ps.len() ==> {
            &&& (#[trigger] ps[i]).output_path == d + part_name(i as nat)
            &&& ps[i].parent == Some("index.md"@)
            &&& ps[i].page_kind == PageKind::Leaf
            &&& ps[i].prev == (if i > 1 { Some(part_name((i - 1) as nat)) } else { None })
            &&& ps[i].next == (if i + 1 < ps.len() { Some(part_name((i + 1) as nat)) } else { None })
        },
    ensures
        ps.len() >= 1,
        ps[0].output_path == d + "index.md"@,
        ps[0].page_kind == PageKind::Entry,
        ps[0].parent is None && ps[0].prev is None && ps[0].next is None,
        forall|i: int| 1 <= i < ps.len() ==> (#[trigger] ps[i]).parent == Some("index.md"@)
            && ps[i].page_kind == PageKind::Leaf
            && ps[i].output_path.len() > d.len()
            && ps[i].output_path.subrange(0, d.len() as int) == d,
        ps.len() >= 2 ==> ps[1].prev is None,
        ps.len() >= 2 ==> ps[ps.len() - 1].next is None,
        forall|i: int| #![trigger ps[i].next] 1 <= i < ps.len() - 1 ==>
            (ps[i].next matches Some(n) && ps[i + 1].output_path == d + n),
        forall|i: int| #![trigger ps[i + 1].prev] 1 <= i < ps.len() - 1 ==>
            (ps[i + 1].prev matches Some(p) && ps[i].output_path == d + p),
        forall|i: int| 1 <= i < ps.len() ==>
            (#[trigger] ps[i]).prev != Some(ps[i].output_path.skip(d.len() as int))
            && ps[i].next != Some(ps[i].output_path.skip(d.len() as int)),
{
    let name = |n: nat| part_name(n);
    assert forall|a: nat, b: nat| #[trigger] name(a) == #[trigger] name(b) implies a == b by {
        lemma_part_names_distinct(a, b);
    }
    assert forall|a: nat| #[trigger] name(a).len() > 0 by {
        reveal_strlit("part-");
    }
    lemma_chain_next(ps, d, name);
    lemma_chain_prev(ps, d, name);
    lemma_chain_no_self(ps, d, name);
    if ps.len() >= 2 {
        assert(ps[1].prev is None);
        assert(ps[ps.len() - 1].next is None);
    }
}

/// Law: the pages of a large source form a chain in one directory `d`: the
/// entry page is `d` + `index.md` and is every leaf's parent; each leaf's
/// `prev` is the file name of the leaf before it and its `next` the file name
/// of the leaf after it (so the two links of neighbours are inverse); the
/// first leaf has no `prev`, the last no `next`, and no leaf links to itself.
pub proof fn lemma_leaf_chain(src: Seq<char>, lines: Seq<LineRecord>, heading_count: usize, hard: usize, ps: Seq<PlanV>, d: Seq<char>)
    requires
        ps == plan_leaf_pages_spec(src, lines, heading_count, hard),
        d == join2("fragments"@, entry_slug_of(src)) + seq!['/'],
    ensures
        ps.len() >= 1,
        ps[0].output_path == d + "index.md"@,
        ps[0].page_kind == PageKind::Entry,
        ps[0].parent is None && ps[0].prev is None && ps[0].next is None,
        forall|i: int| 1 <= i < ps.len() ==> (#[trigger] ps[i]).parent == Some("index.md"@)
            && ps[i].page_kind == PageKind::Leaf
            && ps[i].output_path.len() > d.len()
            && ps[i].output_path.subrange(0, d.len() as int) == d,
        ps.len() >= 2 ==> ps[1].prev is None,
        ps.len() >= 2 ==> ps[ps.len() - 1].next is None,
        forall|i: int| #![trigger ps[i].next] 1 <= i < ps.len() - 1 ==>
            (ps[i].next matches Some(n) && ps[i + 1].output_path == d + n),
        forall|i: int| #![trigger ps[i + 1].prev] 1 <= i < ps.len() - 1 ==>
            (ps[i + 1].prev matches Some(p) && ps[i].output_path == d + p),
        forall|i: int| 1 <= i < ps.len() ==>
            (#[trigger] ps[i]).prev != Some(ps[i].output_path.skip(d.len() as int))
            && ps[i].next != Some(ps[i].output_path.skip(d.len() as int)),
{
    lemma_entry_at(src, lines, heading_count, hard, ps, d);
    lemma_leaves_all(src, lines, heading_count, hard, ps, d);
    lemma_chain_all(ps, d);
}

fn lit(s: &str) -> (r: Vec<char>)
    ensures
        r@ == s@,
{
    to_chars(s)
}

fn part_name_exec(n: usize) -> (r: String)
    ensures
        r@ == part_name(n as nat),
{
    let mut v = lit("part-");
    push_all(&mut v, &zero_pad_chars(n, 3));
    push_all(&mut v, &lit(".md"));
    from_chars(&v)
}

fn entry_slug_exec(src: &str) -> (r: Vec<char>)
    ensures
        r@ == entry_slug_of(src@),
{
    match file_stem_exec(src) {
        Some(st) => {
            let s = slugify(st.as_str());
            if s.unicode_len() > 0 {
                to_chars(s.as_str())
            } else {
                lit("note")
            }
        },
        None => lit("note"),
    }
}

fn source_label_exec(src: &str) -> (r: String)
    ensures
        r@ == source_label_of(src@),
{
    let cs = components_exec(&to_chars(src));
    if cs.len() == 0 {
        String::from_str("source.md")
    } else {
        from_chars(&file_name_exec(src))
    }
}

fn leaf_plan_exec(src: &str, slug: &Vec<char>, dir: &Vec<char>, label: &String, idx: usize, count: usize, c: &Chunk) -> (p: PagePlan)
    requires
        idx < count,
        slug@ == entry_slug_of(src@),
        dir@ == join2("fragments"@, entry_slug_of(src@)),
        label@ == source_label_of(src@),
    ensures
        p@ == leaf_plan(src@, idx as int, count as int, *c),
{
    let mut id = slug.clone();
    push_all(&mut id, &lit(":part-"));
    push_all(&mut id, &zero_pad_chars(idx + 1, 3));
    let mut part = lit("Part ");
    push_all(&mut part, &decimal_chars(idx + 1));
    let mut section_path: Vec<String> = Vec::new();
    push_string(&mut section_path, label.clone());
    push_string(&mut section_path, from_chars(&part));
    let mut byte_ranges: Vec<ByteRange> = Vec::new();
    byte_ranges.push(ByteRange { start: c.byte_start, end: c.byte_end });
    let mut line_ranges: Vec<LineRange> = Vec::new();
    line_ranges.push(LineRange { start: c.line_start, end: c.line_end });
    let name = part_name_exec(idx + 1);
    let p = PagePlan {
        page_id: from_chars(&id),
        page_kind: PageKind::Leaf,
        output_path: from_chars(&join2_exec(dir, &to_chars(name.as_str()))),
        source_path: Some(String::from_str(src)),
        section_path,
        byte_ranges,
        line_ranges,
        split_reason: c.split_reason,
        parent: Some(String::from_str("index.md")),
        prev: if idx > 0 { Some(part_name_exec(idx)) } else { None },
        next: if idx + 1 < count { Some(part_name_exec(idx + 2)) } else { None },
        estimated_chars: c.chars,
    };
    assert(sv(p.section_path@) =~= seq![source_label_of(src@), "Part "@ + decimal((idx + 1) as nat)]);
    assert(p.byte_ranges@ =~= seq![ByteRange { start: c.byte_start, end: c.byte_end }]);
    assert(p.line_ranges@ =~= seq![LineRange { start: c.line_start, end: c.line_end }]);
    p
}

/// Plan a large input as leaf pages under the limit: an entry page and
/// `part-NNN.md` pages.
#[verifier::rlimit(40)]
pub fn plan_leaf_pages(source_path: &str, line_report: &LineScanReport, section_tree: &SectionTree, hard_limit: usize) -> (r: Vec<PagePlan>)
    ensures
        plans_view(r@) == plan_leaf_pages_spec(source_path@, line_report.lines@, section_tree.heading_count, hard_limit),
{
    let slug = entry_slug_exec(source_path);
    let dir = join2_exec(&lit("fragments"), &slug);
    let label = source_label_exec(source_path);
    let mut entry_sections: Vec<String> = Vec::new();
    push_string(&mut entry_sections, label.clone());
    let mut id = slug.clone();
    push_all(&mut id, &lit(":entry"));
    let entry = PagePlan {
        page_id: from_chars(&id),
        page_kind: PageKind::Entry,
        output_path: from_chars(&join2_exec(&dir, &lit("index.md"))),
        source_path: Some(String::from_str(source_path)),
        section_path: entry_sections,
        byte_ranges: Vec::new(),
        line_ranges: Vec::new(),
        split_reason: SplitReason::Heading,
        parent: None,
        prev: None,
        next: None,
        estimated_chars: 0,
    };
    assert(sv(entry.section_path@) =~= seq![source_label_of(source_path@)]);
    assert(entry.byte_ranges@ =~= Seq::<ByteRange>::empty());
    assert(entry.line_ranges@ =~= Seq::<LineRange>::empty());
    let mut plans: Vec<PagePlan> = Vec::new();
    plans.push(entry);
    let a: usize = if hard_limit >= 10_000 { hard_limit - 10_000 } else { 0 };
    let limit: usize = if a > BYTE_WINDOW_CHAR_TARGET { a } else { BYTE_WINDOW_CHAR_TARGET };
    let reason = choose_split_reason(line_report, section_tree, limit);
    let chunks = chunk_lines(&line_report.lines, limit, reason);
    let ghost cs = chunks@;
    let count = chunks.len();
    let mut i: usize = 0;
    while i < count
        invariant
            i <= count,
            count == cs.len(),
            cs == chunks@,
            slug@ == entry_slug_of(source_path@),
            dir@ == join2("fragments"@, entry_slug_of(source_path@)),
            label@ == source_label_of(source_path@),
            plans_view(plans@) == seq![entry_plan(source_path@)] + cs.take(i as int).map(|j: int, c: Chunk| leaf_plan(source_path@, j, count as int, c)),
        decreases count - i,
    {
        let p = leaf_plan_exec(source_path, &slug, &dir, &label, i, count, &chunks[i]);
        let ghost before = plans_view(plans@);
        plans.push(p);
        proof {
            assert(plans_view(plans@) =~= before.push(p@));
            assert(cs.take(i + 1).map(|j: int, c: Chunk| leaf_plan(source_path@, j, count as int, c))
                =~= cs.take(i as int).map(|j: int, c: Chunk| leaf_plan(source_path@, j, count as int, c)).push(leaf_plan(source_path@, i as int, count as int, cs[i as int])));
        }
        i = i + 1;
    }
    assert(cs.take(i as int) =~= cs);
    plans
}

// ---------------------------------------------------------------------------
// The section tree
// ---------------------------------------------------------------------------

/// The content of a [`SectionNode`].
pub struct SectionV {
    pub id: Seq<char>,
    pub parent_id: Option<Seq<char>>,
    pub level: u8,
    pub title: Seq<char>,
    pub slug: Seq<char>,
    pub byte_start: u64,
    pub byte_end: u64,
    pub line_start: u64,
    pub line_end: u64,
    pub children: Seq<Seq<char>>,
}

impl View for SectionNode {
    type V = SectionV;

    open spec fn view(&self) -> SectionV {
        SectionV {
            id: self.id@,
            parent_id: opt_str(self.parent_id),
            level: self.level,
            title: self.title@,
            slug: self.slug@,
            byte_start: self.byte_start,
            byte_end: self.byte_end,
            line_start: self.line_start,
            line_end: self.line_end,
            children: sv(self.children@),
        }
    }
}

pub open spec fn sections_view(v: Seq<SectionNode>) -> Seq<SectionV> {
    v.map_values(|s: SectionNode| s@)
}

pub open spec fn root_section() -> SectionV {
    SectionV {
        id: "root"@,
        parent_id: None,
        level: 0,
        title: "root"@,
        slug: "root"@,
        byte_start: 0,
        byte_end: 0,
        line_start: 1,
        line_end: 0,
        children: seq![],
    }
}

pub open spec fn closed(s: SectionV, byte_end: u64, line_end: u64) -> SectionV {
    SectionV {
        id: s.id,
        parent_id: s.parent_id,
        level: s.level,
        title: s.title,
        slug: s.slug,
        byte_start: s.byte_start,
        byte_end,
        line_start: s.line_start,
        line_end,
        children: s.children,
    }
}

pub open spec fn with_child(s: SectionV, id: Seq<char>) -> SectionV {
    SectionV {
        id: s.id,
        parent_id: s.parent_id,
        level: s.level,
        title: s.title,
        slug: s.slug,
        byte_start: s.byte_start,
        byte_end: s.byte_end,
        line_start: s.line_start,
        line_end: s.line_end,
        children: s.children.push(id),
    }
}

/// `n - 1`, stopping at zero.
pub open spec fn pred_sat(n: u64) -> u64 {
    if n >= 1 { (n - 1) as u64 } else { 0 }
}

/// Close the open sections of level `level` or deeper, innermost first.
pub open spec fn pop_until(secs: Seq<SectionV>, stack: Seq<int>, level: u8, start: u64, line: u64) -> (Seq<SectionV>, Seq<int>)
    decreases stack.len(),
{
    if stack.len() == 0 {
        (secs, stack)
    } else {
        let top = stack.last();
        if 0 <= top < secs.len() && secs[top].level >= level {
            pop_until(secs.update(top, closed(secs[top], start, pred_sat(line))), stack.drop_last(), level, start, line)
        } else {
            (secs, stack)
        }
    }
}

/// The slug of a section title (`section` when it has none).
pub open spec fn section_slug(title: Seq<char>) -> Seq<char> {
    if slug_of(title).len() > 0 { slug_of(title) } else { "section"@ }
}

/// `h{level}-{count}-{slug}`.
pub open spec fn section_id(level: u8, count: nat, slug: Seq<char>) -> Seq<char> {
    "h"@ + decimal(level as nat) + "-"@ + decimal(count) + "-"@ + slug
}

/// The state of the tree walk: sections, open stack, heading counts per
/// level, inside a fence, last line number.
pub type TreeState = (Seq<SectionV>, Seq<int>, Seq<nat>, bool, u64);

/// A heading line opens a section under the innermost open one of a lower level.
pub open spec fn tree_step(st: TreeState, rec: LineRecord, prefix: Seq<char>) -> TreeState {
    let (secs, stack, counts, in_fence, last) = st;
    let opened: (Seq<SectionV>, Seq<int>, Seq<nat>) = if !in_fence && parse_heading_spec(prefix) is Some {
        let (level, title) = parse_heading_spec(prefix)->0;
        let (sa, ka) = pop_until(secs, stack, level, rec.byte_start, rec.line_number);
        let c = counts[level as int] + 1;
        let slug = section_slug(title);
        let id = section_id(level, c, slug);
        let parent = ka.last();
        let sb = sa.update(parent, with_child(sa[parent], id)).push(SectionV {
            id,
            parent_id: Some(sa[parent].id),
            level,
            title,
            slug,
            byte_start: rec.byte_start,
            byte_end: 0,
            line_start: rec.line_number,
            line_end: 0,
            children: seq![],
        });
        (sb, ka.push(sa.len() as int), counts.update(level as int, c))
    } else {
        (secs, stack, counts)
    };
    (opened.0, opened.1, opened.2, if rec.kind_hint == LineKindHint::Fence { !in_fence } else { in_fence }, rec.line_number)
}

pub open spec fn tree_fold(lines: Seq<ScannedLine>) -> TreeState
    decreases lines.len(),
{
    if lines.len() == 0 {
        (seq![root_section()], seq![0], Seq::new(7, |i: int| 0nat), false, 0)
    } else {
        tree_step(tree_fold(lines.drop_last()), lines.last().record, lines.last().prefix@)
    }
}

/// The sections still open at the end run to the end of the input.
pub open spec fn close_all(secs: Seq<SectionV>, bytes: u64, last: u64) -> Seq<SectionV> {
    secs.map_values(|s: SectionV| if s.byte_end == 0 { closed(s, bytes, last) } else { s })
}

/// The section tree of the lines of an input of `bytes` bytes.
pub open spec fn section_tree_spec(lines: Seq<ScannedLine>, bytes: u64) -> (Seq<SectionV>, int) {
    let st = tree_fold(lines);
    (close_all(st.0, bytes, st.4), st.0.len() - 1)
}

/// The walk's invariant: the root at the bottom of the stack, every stack
/// entry a section.
pub open spec fn tree_wf(st: TreeState, n: nat) -> bool {
    &&& st.1.len() >= 1
    &&& st.1[0] == 0
    &&& st.0.len() >= 1
    &&& st.0[0].level == 0
    &&& forall|j: int| 0 <= j < st.1.len() ==> 0 <= #[trigger] st.1[j] < st.0.len()
    &&& st.2.len() == 7
    &&& forall|l: int| 0 <= l < 7 ==> #[trigger] st.2[l] <= n
    &&& st.0.len() <= n + 1
}

proof fn lemma_pop_until(secs: Seq<SectionV>, stack: Seq<int>, level: u8, start: u64, line: u64)
    requires
        level >= 1,
        stack.len() >= 1,
        stack[0] == 0,
        secs.len() >= 1,
        secs[0].level == 0,
        forall|j: int| 0 <= j < stack.len() ==> 0 <= #[trigger] stack[j] < secs.len(),
    ensures
        ({
            let (s2, k2) = pop_until(secs, stack, level, start, line);
            &&& s2.len() == secs.len()
            &&& k2.len() >= 1
            &&& k2[0] == 0
            &&& s2[0].level == 0
            &&& forall|j: int| 0 <= j < k2.len() ==> 0 <= #[trigger] k2[j] < s2.len()
            &&& forall|j: int| 0 <= j < s2.len() ==> (#[trigger] s2[j]).level == secs[j].level
            &&& s2[k2.last()].level < level
        }),
    decreases stack.len(),
{
    let top = stack.last();
    if secs[top].level >= level {
        let s1 = secs.update(top, closed(secs[top], start, pred_sat(line)));
        assert(top != 0) by {
            if top == 0 {
                assert(secs[0].level == 0);
            }
        }
        assert(stack.len() > 1) by {
            if stack.len() == 1 {
                assert(stack.last() == stack[0]);
            }
        }
        let k1 = stack.drop_last();
        assert forall|j: int| 0 <= j < k1.len() implies 0 <= #[trigger] k1[j] < s1.len() by {
            assert(k1[j] == stack[j]);
        }
        lemma_pop_until(s1, k1, level, start, line);
    }
}

/// Two runs of sections with the same ids, parents, levels and children.
pub open spec fn same_shape(a: Seq<SectionV>, b: Seq<SectionV>) -> bool {
    &&& a.len() == b.len()
    &&& forall|j: int| 0 <= j < a.len() ==> {
        &&& (#[trigger] a[j]).id == b[j].id
        &&& a[j].parent_id == b[j].parent_id
        &&& a[j].level == b[j].level
        &&& a[j].children == b[j].children
    }
}

/// Every section but the first hangs under an earlier section of a lower
/// level that names it among its children.
pub open spec fn parents_ok(secs: Seq<SectionV>) -> bool {
    forall|j: int| #![trigger secs[j]] 1 <= j < secs.len() ==> exists|p: int| #![trigger secs[p]]
        0 <= p < j && secs[j].parent_id == Some(secs[p].id) && secs[p].level < secs[j].level
            && secs[p].children.contains(secs[j].id)
}

/// The first section is the root: id `root`, level 0, no parent.
pub open spec fn rooted(secs: Seq<SectionV>) -> bool {
    secs.len() >= 1 && secs[0].id == "root"@ && secs[0].level == 0 && secs[0].parent_id is None
}

proof fn lemma_shape_keeps(a: Seq<SectionV>, b: Seq<SectionV>)
    requires
        same_shape(a, b),
        parents_ok(a),
        rooted(a),
    ensures
        parents_ok(b),
        rooted(b),
{
    assert forall|j: int| #![trigger b[j]] 1 <= j < b.len() implies exists|p: int| #![trigger b[p]]
        0 <= p < j && b[j].parent_id == Some(b[p].id) && b[p].level < b[j].level && b[p].children.contains(b[j].id) by {
        let p = choose|p: int| #![trigger a[p]] 0 <= p < j && a[j].parent_id == Some(a[p].id) && a[p].level < a[j].level
            && a[p].children.contains(a[j].id);
        assert(a[p].id == b[p].id);
        assert(a[j].id == b[j].id);
    }
    assert(a[0].id == b[0].id);
}

proof fn lemma_pop_shape(secs: Seq<SectionV>, stack: Seq<int>, level: u8, start: u64, line: u64)
    ensures
        same_shape(secs, pop_until(secs, stack, level, start, line).0),
    decreases stack.len(),
{
    if stack.len() > 0 {
        let top = stack.last();
        if 0 <= top < secs.len() && secs[top].level >= level {
            let s1 = secs.update(top, closed(secs[top], start, pred_sat(line)));
            lemma_pop_shape(s1, stack.drop_last(), level, start, line);
            let s2 = pop_until(s1, stack.drop_last(), level, start, line).0;
            assert forall|j: int| 0 <= j < secs.len() implies {
                &&& (#[trigger] secs[j]).id == s2[j].id
                &&& secs[j].parent_id == s2[j].parent_id
                &&& secs[j].level == s2[j].level
                &&& secs[j].children == s2[j].children
            } by {
                assert(s1[j].id == s2[j].id);
            }
        }
    }
}

/// The stack of open sections is well formed.
pub open spec fn stack_ok(st: TreeState) -> bool {
    &&& st.1.len() >= 1
    &&& st.1[0] == 0
    &&& forall|j: int| 0 <= j < st.1.len() ==> 0 <= #[trigger] st.1[j] < st.0.len()
}

proof fn lemma_tree_fold_shape(lines: Seq<ScannedLine>)
    ensures
        rooted(tree_fold(lines).0),
        parents_ok(tree_fold(lines).0),
        stack_ok(tree_fold(lines)),
    decreases lines.len(),
{
    if lines.len() == 0 {
        assert(tree_fold(lines).0 =~= seq![root_section()]);
    } else {
        lemma_tree_fold_shape(lines.drop_last());
        let st = tree_fold(lines.drop_last());
        let (secs, stack, counts, in_fence, last) = st;
        let rec = lines.last().record;
        let prefix = lines.last().prefix@;
        if !in_fence && parse_heading_spec(prefix) is Some {
            let (level, title) = parse_heading_spec(prefix)->0;
            assert(level >= 1);
            lemma_pop_until(secs, stack, level, rec.byte_start, rec.line_number);
            lemma_pop_shape(secs, stack, level, rec.byte_start, rec.line_number);
            let (sa, ka) = pop_until(secs, stack, level, rec.byte_start, rec.line_number);
            lemma_shape_keeps(secs, sa);
            let c = counts[level as int] + 1;
            let slug = section_slug(title);
            let id = section_id(level, c, slug);
            let parent = ka.last();
            let su = sa.update(parent, with_child(sa[parent], id));
            let newsec = SectionV {
                id,
                parent_id: Some(sa[parent].id),
                level,
                title,
                slug,
                byte_start: rec.byte_start,
                byte_end: 0,
                line_start: rec.line_number,
                line_end: 0,
                children: seq![],
            };
            let sb = su.push(newsec);
            assert(tree_fold(lines).0 == sb);
            assert(tree_fold(lines).1 == ka.push(sa.len() as int));
            assert(0 <= parent < sa.len());
            assert forall|j: int| #![trigger sb[j]] 1 <= j < sb.len() implies exists|p: int| #![trigger sb[p]]
                0 <= p < j && sb[j].parent_id == Some(sb[p].id) && sb[p].level < sb[j].level && sb[p].children.contains(sb[j].id) by {
                if j == sa.len() {
                    assert(sb[parent] == with_child(sa[parent], id));
                    assert(sb[parent].children == sa[parent].children.push(id));
                    assert(sb[parent].children[sa[parent].children.len() as int] == id);
                    assert(sb[parent].children.contains(id));
                    assert(sb[j] == newsec);
                } else {
                    let p = choose|p: int| #![trigger sa[p]] 0 <= p < j && sa[j].parent_id == Some(sa[p].id) && sa[p].level < sa[j].level
                        && sa[p].children.contains(sa[j].id);
                    assert(sb[j].id == sa[j].id && sb[j].parent_id == sa[j].parent_id && sb[j].level == sa[j].level);
                    assert(sb[p].id == sa[p].id && sb[p].level == sa[p].level);
                    if p == parent {
                        let k = choose|k: int| 0 <= k < sa[p].children.len() && sa[p].children[k] == sa[j].id;
                        assert(sb[p].children[k] == sa[j].id);
                    } else {
                        assert(sb[p].children == sa[p].children);
                    }
                }
            }
            assert(sb[0].id == sa[0].id && sb[0].level == sa[0].level && sb[0].parent_id == sa[0].parent_id);
            let k2 = ka.push(sa.len() as int);
            assert forall|j: int| 0 <= j < k2.len() implies 0 <= #[trigger] k2[j] < sb.len() by {
                if j < ka.len() {
                    assert(k2[j] == ka[j]);
                }
            }
        } else {
            assert(tree_fold(lines).0 == secs);
            assert(tree_fold(lines).1 == stack);
        }
    }
}

/// Law: the section tree of a large input has its root first (id `root`,
/// level 0, no parent), counts one section per heading besides the root,
/// and hangs every other section under an earlier section of a lower level
/// that lists it among its children.
pub proof fn lemma_section_tree_shape(lines: Seq<ScannedLine>, bytes: u64)
    ensures
        rooted(section_tree_spec(lines, bytes).0),
        parents_ok(section_tree_spec(lines, bytes).0),
        section_tree_spec(lines, bytes).0.len() == section_tree_spec(lines, bytes).1 + 1,
{
    lemma_tree_fold_shape(lines);
    let st = tree_fold(lines);
    let t = section_tree_spec(lines, bytes).0;
    assert(t == close_all(st.0, bytes, st.4));
    assert(same_shape(st.0, t)) by {
        assert forall|j: int| 0 <= j < st.0.len() implies {
            &&& (#[trigger] st.0[j]).id == t[j].id
            &&& st.0[j].parent_id == t[j].parent_id
            &&& st.0[j].level == t[j].level
            &&& st.0[j].children == t[j].children
        } by {
            assert(t[j] == (if st.0[j].byte_end == 0 { closed(st.0[j], bytes, st.4) } else { st.0[j] }));
        }
    }
    lemma_shape_keeps(st.0, t);
}

fn copy_strings(v: &Vec<String>) -> (r: Vec<String>)
    ensures
        sv(r@) == sv(v@),
{
    let mut out: Vec<String> = Vec::new();
    let mut i: usize = 0;
    while i < v.len()
        invariant
            i <= v@.len(),
            sv(out@) == sv(v@.take(i as int)),
        decreases v@.len() - i,
    {
        push_string(&mut out, v[i].clone());
        assert(sv(v@.take(i + 1)) =~= sv(v@.take(i as int)).push(v@[i as int]@));
        i = i + 1;
    }
    assert(v@.take(v@.len() as int) =~= v@);
    out
}

fn copy_opt_string(o: &Option<String>) -> (r: Option<String>)
    ensures
        opt_str(r) == opt_str(*o),
{
    match o {
        Some(s) => Some(s.clone()),
        None => None,
    }
}

fn close_at(secs: &mut Vec<SectionNode>, i: usize, byte_end: u64, line_end: u64)
    requires
        i < old(secs)@.len(),
    ensures
        sections_view(final(secs)@) == sections_view(old(secs)@).update(i as int, closed(old(secs)@[i as int]@, byte_end, line_end)),
        final(secs)@.len() == old(secs)@.len(),
        forall|q: int| 0 <= q < final(secs)@.len() ==> (#[trigger] final(secs)@[q]).level == old(secs)@[q].level,
{
    let s = &secs[i];
    let n = SectionNode {
        id: s.id.clone(),
        parent_id: copy_opt_string(&s.parent_id),
        level: s.level,
        title: s.title.clone(),
        slug: s.slug.clone(),
        byte_start: s.byte_start,
        byte_end,
        line_start: s.line_start,
        line_end,
        children: copy_strings(&s.children),
    };
    let ghost before = sections_view(secs@);
    let ghost old_secs = secs@;
    secs.set(i, n);
    assert(sections_view(secs@) =~= before.update(i as int, n@));
    assert forall|q: int| 0 <= q < secs@.len() implies (#[trigger] secs@[q]).level == old_secs[q].level by {
        if q != i {
            assert(secs@[q] == old_secs[q]);
        }
    }
}

fn add_child_at(secs: &mut Vec<SectionNode>, i: usize, id: String)
    requires
        i < old(secs)@.len(),
    ensures
        sections_view(final(secs)@) == sections_view(old(secs)@).update(i as int, with_child(old(secs)@[i as int]@, id@)),
        final(secs)@.len() == old(secs)@.len(),
        forall|q: int| 0 <= q < final(secs)@.len() ==> (#[trigger] final(secs)@[q]).level == old(secs)@[q].level,
{
    let s = &secs[i];
    let mut children = copy_strings(&s.children);
    push_string(&mut children, id);
    let n = SectionNode {
        id: s.id.clone(),
        parent_id: copy_opt_string(&s.parent_id),
        level: s.level,
        title: s.title.clone(),
        slug: s.slug.clone(),
        byte_start: s.byte_start,
        byte_end: s.byte_end,
        line_start: s.line_start,
        line_end: s.line_end,
        children,
    };
    let ghost before = sections_view(secs@);
    let ghost old_secs = secs@;
    secs.set(i, n);
    assert(sections_view(secs@) =~= before.update(i as int, n@));
    assert forall|q: int| 0 <= q < secs@.len() implies (#[trigger] secs@[q]).level == old_secs[q].level by {
        if q != i {
            assert(secs@[q] == old_secs[q]);
        }
    }
}

fn stack_view(v: &Vec<usize>) -> (r: Ghost<Seq<int>>)
    ensures
        r@ == v@.map_values(|x: usize| x as int),
{
    Ghost(v@.map_values(|x: usize| x as int))
}

/// Close the sections of level `level` or deeper.
fn pop_until_exec(secs: &mut Vec<SectionNode>, stack: &mut Vec<usize>, level: u8, start: u64, line: u64)
    requires
        level >= 1,
        old(stack)@.len() >= 1,
        old(stack)@[0] == 0,
        old(secs)@.len() >= 1,
        old(secs)@[0].level == 0,
        forall|j: int| 0 <= j < old(stack)@.len() ==> (#[trigger] old(stack)@[j]) < old(secs)@.len(),
    ensures
        (sections_view(final(secs)@), final(stack)@.map_values(|x: usize| x as int))
            == pop_until(sections_view(old(secs)@), old(stack)@.map_values(|x: usize| x as int), level, start, line),
        final(stack)@.len() >= 1,
        final(stack)@[0] == 0,
        final(secs)@.len() == old(secs)@.len(),
        final(secs)@[0].level == 0,
        forall|j: int| 0 <= j < final(stack)@.len() ==> (#[trigger] final(stack)@[j]) < final(secs)@.len(),
        final(secs)@[final(stack)@.last() as int].level < level,
        forall|q: int| 0 <= q < final(secs)@.len() ==> (#[trigger] final(secs)@[q]).level == old(secs)@[q].level,
{
    let ghost goal = pop_until(sections_view(secs@), stack@.map_values(|x: usize| x as int), level, start, line);
    proof {
        lemma_pop_until(sections_view(secs@), stack@.map_values(|x: usize| x as int), level, start, line);
    }
    let ghost n0 = secs@.len();
    let ghost lv0 = secs@;
    loop
        invariant
            level >= 1,
            secs@.len() == n0,
            forall|q: int| 0 <= q < secs@.len() ==> (#[trigger] secs@[q]).level == lv0[q].level,
            goal == pop_until(sections_view(secs@), stack@.map_values(|x: usize| x as int), level, start, line),
            stack@.len() >= 1,
            stack@[0] == 0,
            secs@.len() >= 1,
            sections_view(secs@)[0].level == 0,
            forall|j: int| 0 <= j < stack@.len() ==> (#[trigger] stack@[j]) < secs@.len(),
        ensures
            goal == (sections_view(secs@), stack@.map_values(|x: usize| x as int)),
            stack@.len() >= 1,
            stack@[0] == 0,
            secs@.len() == n0,
            secs@[0].level == 0,
            forall|j: int| 0 <= j < stack@.len() ==> (#[trigger] stack@[j]) < secs@.len(),
            secs@[stack@.last() as int].level < level,
            forall|q: int| 0 <= q < secs@.len() ==> (#[trigger] secs@[q]).level == lv0[q].level,
        decreases stack@.len(),
    {
        let ghost sk = stack@.map_values(|x: usize| x as int);
        let top = stack[stack.len() - 1];
        assert(sk.last() == top as int);
        assert(sections_view(secs@)[top as int].level == secs@[top as int].level);
        if secs[top].level >= level {
            proof {
                assert forall|j: int| 0 <= j < sk.len() implies 0 <= #[trigger] sk[j] < sections_view(secs@).len() by {
                    assert(sk[j] == stack@[j] as int);
                }
                lemma_pop_until(sections_view(secs@), sk, level, start, line);
                assert(top != 0) by {
                    if top == 0 {
                        assert(sections_view(secs@)[0].level == 0);
                    }
                }
            }
            let ghost sv0 = sections_view(secs@);
            close_at(secs, top, start, if line >= 1 { line - 1 } else { 0 });
            let ghost st0 = stack@;
            stack.pop();
            proof {
                assert(stack@.map_values(|x: usize| x as int) =~= sk.drop_last());
                assert(stack@.len() >= 1) by {
                    if st0.len() == 1 {
                        assert(st0[0] == 0);
                    }
                }
                assert(stack@[0] == st0[0]);
                assert forall|j: int| 0 <= j < stack@.len() implies (#[trigger] stack@[j]) < secs@.len() by {
                    assert(stack@[j] == st0[j]);
                }
                assert(sections_view(secs@)[0].level == 0) by {
                    assert(sections_view(secs@)[0].level == sv0[0].level);
                }
            }
        } else {
            break;
        }
    }
}


fn lit_chars(s: &str) -> (r: Vec<char>)
    ensures
        r@ == s@,
{
    to_chars(s)
}

fn section_id_exec(level: u8, count: usize, slug: &[char]) -> (r: String)
    ensures
        r@ == section_id(level, count as nat, slug@),
{
    let mut v = lit_chars("h");
    push_all(&mut v, &decimal_chars(level as usize));
    push_all(&mut v, &lit_chars("-"));
    push_all(&mut v, &decimal_chars(count));
    push_all(&mut v, &lit_chars("-"));
    push_all(&mut v, slug);
    from_chars(&v)
}

fn section_slug_exec(title: &str) -> (r: Vec<char>)
    ensures
        r@ == section_slug(title@),
{
    let s = slugify(title);
    if s.unicode_len() > 0 {
        to_chars(s.as_str())
    } else {
        lit_chars("section")
    }
}

pub open spec fn counts_view(v: Seq<usize>) -> Seq<nat> {
    v.map_values(|x: usize| x as nat)
}

/// Handle one line of the walk.
#[verifier::rlimit(60)]
fn tree_step_exec(
    line: &ScannedLine,
    n: usize,
    secs: &mut Vec<SectionNode>,
    stack: &mut Vec<usize>,
    counts: &mut Vec<usize>,
    in_fence: &mut bool,
    last: &mut u64,
)
    requires
        tree_wf((sections_view(old(secs)@), old(stack)@.map_values(|x: usize| x as int), counts_view(old(counts)@), *old(in_fence), *old(last)), n as nat),
        n < usize::MAX,
    ensures
        tree_wf((sections_view(final(secs)@), final(stack)@.map_values(|x: usize| x as int), counts_view(final(counts)@), *final(in_fence), *final(last)), (n + 1) as nat),
        (sections_view(final(secs)@), final(stack)@.map_values(|x: usize| x as int), counts_view(final(counts)@), *final(in_fence), *final(last))
            == tree_step((sections_view(old(secs)@), old(stack)@.map_values(|x: usize| x as int), counts_view(old(counts)@), *old(in_fence), *old(last)), line.record, line.prefix@),
{
    let rec = &line.record;
    let ghost st = (sections_view(secs@), stack@.map_values(|x: usize| x as int), counts_view(counts@), *in_fence, *last);
    if !*in_fence {
        match parse_heading(line.prefix.as_str()) {
            Some((level, title)) => {
                proof {
                    assert forall|j: int| 0 <= j < stack@.len() implies (#[trigger] stack@[j]) < secs@.len() by {
                        assert(st.1[j] == stack@[j] as int);
                    }
                    assert(stack@[0] == st.1[0]);
                    assert(sections_view(secs@)[0].level == secs@[0].level);
                }
                pop_until_exec(secs, stack, level, rec.byte_start, rec.line_number);
                let ghost sa = sections_view(secs@);
                let ghost ka = stack@.map_values(|x: usize| x as int);
                let l = level as usize;
                assert(counts_view(counts@)[l as int] == counts@[l as int] as nat);
                let c = counts[l] + 1;
                counts.set(l, c);
                let slug = section_slug_exec(title.as_str());
                let id = section_id_exec(level, c, &slug);
                let parent = stack[stack.len() - 1];
                assert(ka.last() == parent as int);
                let parent_id = secs[parent].id.clone();
                add_child_at(secs, parent, id.clone());
                let node = SectionNode {
                    id,
                    parent_id: Some(parent_id),
                    level,
                    title,
                    slug: from_chars(&slug),
                    byte_start: rec.byte_start,
                    byte_end: 0,
                    line_start: rec.line_number,
                    line_end: 0,
                    children: Vec::new(),
                };
                let ghost s1 = sections_view(secs@);
                secs.push(node);
                stack.push(secs.len() - 1);
                proof {
                    assert(node.children@ =~= Seq::<String>::empty());
                    assert(sv(node.children@) =~= Seq::<Seq<char>>::empty());
                    assert(sections_view(secs@) =~= s1.push(node@));
                    assert(stack@.map_values(|x: usize| x as int) =~= ka.push(sa.len() as int));
                    assert(counts_view(counts@) =~= st.2.update(l as int, (st.2[l as int] + 1) as nat));
                }
            },
            None => {},
        }
    }
    if rec.kind_hint == LineKindHint::Fence {
        *in_fence = !*in_fence;
    }
    *last = rec.line_number;
    proof {
        let s2 = sections_view(secs@);
        let k2 = stack@.map_values(|x: usize| x as int);
        assert forall|j: int| 0 <= j < k2.len() implies 0 <= #[trigger] k2[j] < s2.len() by {
            assert(k2[j] == stack@[j] as int);
        }
    }
}

/// Build the section tree from the heading lines; each section runs up to the
/// next heading of the same or a higher level.
#[verifier::rlimit(40)]
pub fn scan_section_tree(lines: &[ScannedLine], bytes: u64) -> (t: SectionTree)
    ensures
        sections_view(t.sections@) == section_tree_spec(lines@, bytes).0,
        t.heading_count == section_tree_spec(lines@, bytes).1,
{
    let mut secs: Vec<SectionNode> = Vec::new();
    secs.push(SectionNode {
        id: String::from_str("root"),
        parent_id: None,
        level: 0,
        title: String::from_str("root"),
        slug: String::from_str("root"),
        byte_start: 0,
        byte_end: 0,
        line_start: 1,
        line_end: 0,
        children: Vec::new(),
    });
    let mut stack: Vec<usize> = Vec::new();
    stack.push(0);
    let mut counts: Vec<usize> = Vec::new();
    let mut k: usize = 0;
    while k < 7
        invariant
            k <= 7,
            counts@.len() == k,
            forall|j: int| 0 <= j < k ==> counts@[j] == 0,
        decreases 7 - k,
    {
        counts.push(0);
        k = k + 1;
    }
    let mut in_fence = false;
    let mut last: u64 = 0;
    proof {
        assert(secs@[0].children@ =~= Seq::<String>::empty());
        assert(sv(secs@[0].children@) =~= Seq::<Seq<char>>::empty());
        assert(secs@[0]@.children =~= Seq::<Seq<char>>::empty());
        assert(sections_view(secs@) =~= seq![root_section()]);
        assert(stack@.map_values(|x: usize| x as int) =~= seq![0int]);
        assert(counts_view(counts@) =~= Seq::new(7, |i: int| 0nat));
        assert(lines@.take(0) =~= Seq::<ScannedLine>::empty());
    }
    let mut i: usize = 0;
    while i < lines.len()
        invariant
            i <= lines@.len(),
            tree_wf((sections_view(secs@), stack@.map_values(|x: usize| x as int), counts_view(counts@), in_fence, last), i as nat),
            (sections_view(secs@), stack@.map_values(|x: usize| x as int), counts_view(counts@), in_fence, last) == tree_fold(lines@.take(i as int)),
        decreases lines@.len() - i,
    {
        proof {
            assert(lines@.take(i + 1).drop_last() =~= lines@.take(i as int));
            assert(lines@.take(i + 1).last() == lines@[i as int]);
        }
        tree_step_exec(&lines[i], i, &mut secs, &mut stack, &mut counts, &mut in_fence, &mut last);
        i = i + 1;
    }
    assert(lines@.take(i as int) =~= lines@);
    let ghost before = sections_view(secs@);
    let mut j: usize = 0;
    while j < secs.len()
        invariant
            j <= secs@.len(),
            secs@.len() == before.len(),
            forall|q: int| 0 <= q < j ==> sections_view(secs@)[q] == close_all(before, bytes, last)[q],
            forall|q: int| j <= q < secs@.len() ==> sections_view(secs@)[q] == before[q],
        decreases secs@.len() - j,
    {
        assert(sections_view(secs@)[j as int] == secs@[j as int]@);
        if secs[j].byte_end == 0 {
            close_at(&mut secs, j, bytes, last);
        }
        j = j + 1;
    }
    assert(sections_view(secs@) =~= close_all(before, bytes, last));
    let count = secs.len() - 1;
    SectionTree { sections: secs, heading_count: count }
}

} // verus!
