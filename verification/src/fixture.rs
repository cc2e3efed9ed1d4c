//! Large Markdown fixtures for the large-input gate: a front-matter header,
//! an opening line for some kinds, numbered blocks until the file reaches its
//! minimum size, and a closing line for code blocks. Writing is done outside,
//! one piece at a time; which piece comes next is decided here.
use vstd::prelude::*;
use crate::num::{decimal, decimal_chars};
use crate::strs::{byte_len, from_chars, push_all, to_chars};

verus! {

#[derive(Debug, Clone, Copy, PartialEq, Eq, Structural)]
pub enum FixtureKind {
    H2H3,
    NoHeading,
    SingleHeading,
    CodeBlock,
    Table,
    Mixed,
    ManyHeadings,
    ManyLinks,
}

/// Where the writing of a fixture stands.
#[derive(Debug, Clone, Copy, PartialEq, Eq, Structural)]
pub enum FixtureStage {
    Header,
    Opening,
    Blocks,
    Done,
}

/// The writing state: the stage, the bytes written so far, the next block number.
#[derive(Debug, Clone, Copy, PartialEq, Eq, Structural)]
pub struct FixtureState {
    pub stage: FixtureStage,
    pub bytes: usize,
    pub index: usize,
}

pub open spec fn header_text() -> Seq<char> {
    "---\ntitle: Large Fixture\n---\n"@
}

/// The line written after the header, for the kinds that have one.
pub open spec fn opening_text(kind: FixtureKind) -> Option<Seq<char>> {
    match kind {
        FixtureKind::SingleHeading => Some("# Single Heading\n\n"@),
        FixtureKind::CodeBlock => Some("# Code\n\n```text\n"@),
        FixtureKind::Table => Some("# Table\n\n| id | value |\n|---|---|\n"@),
        FixtureKind::ManyLinks => Some("# Links\n\n"@),
        _ => None,
    }
}

/// The line written last, for code blocks.
pub open spec fn closing_text(kind: FixtureKind) -> Option<Seq<char>> {
    match kind {
        FixtureKind::CodeBlock => Some("```\n"@),
        _ => None,
    }
}

/// Block number `i` of a fixture.
pub open spec fn block_text(kind: FixtureKind, i: nat) -> Seq<char> {
    let n = decimal(i);
    match kind {
        FixtureKind::H2H3 => "## Chapter "@ + n + "\n\n### Topic "@ + n + "\nmarker-h2-h3-"@ + n + "\n\n"@,
        FixtureKind::NoHeading => "paragraph marker-no-heading-"@ + n + " with deterministic body text.\n\n"@,
        FixtureKind::SingleHeading => "single-section marker-"@ + n + " with deterministic body text.\n"@,
        FixtureKind::CodeBlock => "code-block-marker-"@ + n + "=value-"@ + n + "\n"@,
        FixtureKind::Table => "| "@ + n + " | table-marker-"@ + n + " |\n"@,
        FixtureKind::Mixed => "## Mixed "@ + n + "\n\nParagraph marker-mixed-"@ + n + ".\n\n- item "@ + n
            + "\n\n| id | value |\n|---|---|\n| "@ + n + " | mixed |\n\n"@,
        FixtureKind::ManyHeadings => "## Heading "@ + n + "\n\nmarker-heading-"@ + n + "\n\n"@,
        FixtureKind::ManyLinks => "[local "@ + n + "](#link-"@ + n + ") marker-link-"@ + n + "\n"@,
    }
}

/// The piece to write next and the state after it; `None` when the fixture is complete.
pub open spec fn next_piece(kind: FixtureKind, min_bytes: usize, st: FixtureState) -> Option<(Seq<char>, FixtureState)> {
    let after = |t: Seq<char>, stage: FixtureStage, index: usize|
        FixtureState { stage, bytes: (st.bytes + byte_len(t)) as usize, index };
    match st.stage {
        FixtureStage::Header => Some((header_text(), after(header_text(), FixtureStage::Opening, st.index))),
        FixtureStage::Opening => match opening_text(kind) {
            Some(t) => Some((t, after(t, FixtureStage::Blocks, st.index))),
            None => next_piece_blocks(kind, min_bytes, FixtureState { stage: FixtureStage::Blocks, ..st }),
        },
        FixtureStage::Blocks => next_piece_blocks(kind, min_bytes, st),
        FixtureStage::Done => None,
    }
}

/// In the block stage: the next block while the file is below its minimum size, else what closes it.
pub open spec fn next_piece_blocks(kind: FixtureKind, min_bytes: usize, st: FixtureState) -> Option<(Seq<char>, FixtureState)> {
    if st.bytes < min_bytes {
        let t = block_text(kind, st.index as nat);
        Some((t, FixtureState { stage: FixtureStage::Blocks, bytes: (st.bytes + byte_len(t)) as usize, index: (st.index + 1) as usize }))
    } else {
        next_piece_closing(kind, st)
    }
}

pub open spec fn next_piece_closing(kind: FixtureKind, st: FixtureState) -> Option<(Seq<char>, FixtureState)> {
    match closing_text(kind) {
        Some(t) => Some((t, FixtureState { stage: FixtureStage::Done, bytes: (st.bytes + byte_len(t)) as usize, index: st.index })),
        None => None,
    }
}

/// The state a fixture starts in.
pub fn fixture_start() -> (st: FixtureState)
    ensures
        st == (FixtureState { stage: FixtureStage::Header, bytes: 0, index: 0 }),
{
    FixtureState { stage: FixtureStage::Header, bytes: 0, index: 0 }
}

fn block_exec(kind: FixtureKind, i: usize) -> (r: Vec<char>)
    ensures
        r@ == block_text(kind, i as nat),
{
    let n = decimal_chars(i);
    let mut out: Vec<char> = Vec::new();
    match kind {
        FixtureKind::H2H3 => {
            push_all(&mut out, &to_chars("## Chapter "));
            push_all(&mut out, &n);
            push_all(&mut out, &to_chars("\n\n### Topic "));
            push_all(&mut out, &n);
            push_all(&mut out, &to_chars("\nmarker-h2-h3-"));
            push_all(&mut out, &n);
            push_all(&mut out, &to_chars("\n\n"));
        },
        FixtureKind::NoHeading => {
            push_all(&mut out, &to_chars("paragraph marker-no-heading-"));
            push_all(&mut out, &n);
            push_all(&mut out, &to_chars(" with deterministic body text.\n\n"));
        },
        FixtureKind::SingleHeading => {
            push_all(&mut out, &to_chars("single-section marker-"));
            push_all(&mut out, &n);
            push_all(&mut out, &to_chars(" with deterministic body text.\n"));
        },
        FixtureKind::CodeBlock => {
            push_all(&mut out, &to_chars("code-block-marker-"));
            push_all(&mut out, &n);
            push_all(&mut out, &to_chars("=value-"));
            push_all(&mut out, &n);
            push_all(&mut out, &to_chars("\n"));
        },
        FixtureKind::Table => {
            push_all(&mut out, &to_chars("| "));
            push_all(&mut out, &n);
            push_all(&mut out, &to_chars(" | table-marker-"));
            push_all(&mut out, &n);
            push_all(&mut out, &to_chars(" |\n"));
        },
        FixtureKind::Mixed => {
            push_all(&mut out, &to_chars("## Mixed "));
            push_all(&mut out, &n);
            push_all(&mut out, &to_chars("\n\nParagraph marker-mixed-"));
            push_all(&mut out, &n);
            push_all(&mut out, &to_chars(".\n\n- item "));
            push_all(&mut out, &n);
            push_all(&mut out, &to_chars("\n\n| id | value |\n|---|---|\n| "));
            push_all(&mut out, &n);
            push_all(&mut out, &to_chars(" | mixed |\n\n"));
        },
        FixtureKind::ManyHeadings => {
            push_all(&mut out, &to_chars("## Heading "));
            push_all(&mut out, &n);
            push_all(&mut out, &to_chars("\n\nmarker-heading-"));
            push_all(&mut out, &n);
            push_all(&mut out, &to_chars("\n\n"));
        },
        FixtureKind::ManyLinks => {
            push_all(&mut out, &to_chars("[local "));
            push_all(&mut out, &n);
            push_all(&mut out, &to_chars("](#link-"));
            push_all(&mut out, &n);
            push_all(&mut out, &to_chars(") marker-link-"));
            push_all(&mut out, &n);
            push_all(&mut out, &to_chars("\n"));
        },
    }
    out
}

fn opening_exec(kind: FixtureKind) -> (r: Option<&'static str>)
    ensures
        match opening_text(kind) {
            Some(t) => r matches Some(x) && x@ == t,
            None => r is None,
        },
{
    match kind {
        FixtureKind::SingleHeading => Some("# Single Heading\n\n"),
        FixtureKind::CodeBlock => Some("# Code\n\n```text\n"),
        FixtureKind::Table => Some("# Table\n\n| id | value |\n|---|---|\n"),
        FixtureKind::ManyLinks => Some("# Links\n\n"),
        _ => None,
    }
}

fn closing_exec(kind: FixtureKind) -> (r: Option<&'static str>)
    ensures
        match closing_text(kind) {
            Some(t) => r matches Some(x) && x@ == t,
            None => r is None,
        },
{
    match kind {
        FixtureKind::CodeBlock => Some("```\n"),
        _ => None,
    }
}

/// The number of bytes of a text in UTF-8, added to a count that stays below `usize::MAX`.
fn add_bytes(bytes: usize, t: &str) -> (r: Option<usize>)
    ensures
        match r {
            Some(n) => n == bytes + byte_len(t@),
            None => bytes + byte_len(t@) > usize::MAX,
        },
{
    let b = t.as_bytes();
    let n = b.len();
    proof {
        crate::strs::lemma_byte_len_encode(t@);
    }
    assert(n == b@.len());
    bytes.checked_add(n)
}

/// The next piece of a fixture of `kind` that must reach `min_bytes`, and
/// the state after writing it; `None` when the fixture is complete or its
/// byte count would no longer fit in a `usize`.
pub fn fixture_next(kind: FixtureKind, min_bytes: usize, st: FixtureState) -> (r: Option<(String, FixtureState)>)
    ensures
        r matches Some(x) ==> next_piece(kind, min_bytes, st) == Some((x.0@, x.1)),
        next_piece(kind, min_bytes, st) is None ==> r is None,
        next_piece(kind, min_bytes, st) matches Some((t, s)) && st.bytes + byte_len(t) <= usize::MAX
            && st.index < usize::MAX ==> r is Some,
{
    let mut cur = st;
    if cur.stage == FixtureStage::Header {
        let t = "---\ntitle: Large Fixture\n---\n";
        return match add_bytes(cur.bytes, t) {
            Some(b) => Some((String::from_str(t), FixtureState { stage: FixtureStage::Opening, bytes: b, index: cur.index })),
            None => None,
        };
    }
    if cur.stage == FixtureStage::Opening {
        match opening_exec(kind) {
            Some(t) => {
                return match add_bytes(cur.bytes, t) {
                    Some(b) => Some((String::from_str(t), FixtureState { stage: FixtureStage::Blocks, bytes: b, index: cur.index })),
                    None => None,
                };
            },
            None => {
                cur = FixtureState { stage: FixtureStage::Blocks, ..cur };
            },
        }
    }
    if cur.stage == FixtureStage::Blocks && cur.bytes < min_bytes {
        let t = from_chars(&block_exec(kind, cur.index));
        if cur.index == usize::MAX {
            return None;
        }
        return match add_bytes(cur.bytes, t.as_str()) {
            Some(b) => Some((t, FixtureState { stage: FixtureStage::Blocks, bytes: b, index: cur.index + 1 })),
            None => None,
        };
    }
    if cur.stage == FixtureStage::Blocks {
        return match closing_exec(kind) {
            Some(t) => match add_bytes(cur.bytes, t) {
                Some(b) => Some((String::from_str(t), FixtureState { stage: FixtureStage::Done, bytes: b, index: cur.index })),
                None => None,
            },
            None => None,
        };
    }
    None
}

/// Writing stops only once the fixture has its minimum size: where no piece
/// follows, the state is past the end or has at least `min_bytes` bytes; and
/// the closing line comes only after that size is reached.
pub proof fn lemma_stops_at_min(kind: FixtureKind, min_bytes: usize, st: FixtureState)
    ensures
        next_piece(kind, min_bytes, st) is None ==> st.stage == FixtureStage::Done || st.bytes >= min_bytes,
        next_piece(kind, min_bytes, st) matches Some((_, s)) && s.stage == FixtureStage::Done ==> st.bytes >= min_bytes,
{
}

} // verus!
