//! Sorting scanned files into regular Markdown, large Markdown and skipped
//! inputs. Reading a file is I/O and happens outside the library; what the
//! read gave back (the bytes, or why they could not be had) is decided here.
use vstd::prelude::*;
use vstd::utf8::valid_utf8;
use crate::paths::{extension, extension_exec, file_name, file_name_exec};
use crate::scan::ScannedFile;

verus! {

pub const LARGE_MARKDOWN_THRESHOLD_BYTES: u64 = 1048576;
pub const MAX_MANAGED_MARKDOWN_BYTES: u64 = 209715200;

#[derive(Debug, Clone, Copy, PartialEq, Eq, Structural)]
pub enum InputKind {
    RegularMarkdown,
    LargeMarkdown,
    Skipped,
}

#[derive(Debug, Clone, PartialEq, Eq)]
pub struct ClassifiedInput {
    pub relative_path: String,
    pub size: u64,
    pub kind: InputKind,
    pub reason: Option<String>,
}

pub struct ClassifiedV {
    pub relative_path: Seq<char>,
    pub size: u64,
    pub kind: InputKind,
    pub reason: Option<Seq<char>>,
}

impl View for ClassifiedInput {
    type V = ClassifiedV;

    open spec fn view(&self) -> ClassifiedV {
        ClassifiedV {
            relative_path: self.relative_path@,
            size: self.size,
            kind: self.kind,
            reason: match self.reason {
                Some(r) => Some(r@),
                None => None,
            },
        }
    }
}

/// The view of a validation outcome: `None` when the file passed, else why not.
pub open spec fn failure_of(v: Result<(), String>) -> Option<Seq<char>> {
    match v {
        Ok(_) => None,
        Err(e) => Some(e@),
    }
}

/// Is the path a Markdown file (extension exactly `md`)?
pub open spec fn is_markdown_path(rel: Seq<char>) -> bool {
    extension(file_name(rel)) == "md"@
}

/// What `classify_file` decides for a file, given the outcome of checking its content.
pub open spec fn classified(file: ScannedFile, check: Option<Seq<char>>) -> ClassifiedV {
    if !is_markdown_path(file.relative_path@) {
        ClassifiedV { relative_path: file.relative_path@, size: file.size, kind: InputKind::Skipped, reason: Some("not markdown"@) }
    } else if check is Some {
        ClassifiedV { relative_path: file.relative_path@, size: file.size, kind: InputKind::Skipped, reason: check }
    } else if file.size > MAX_MANAGED_MARKDOWN_BYTES {
        ClassifiedV {
            relative_path: file.relative_path@,
            size: file.size,
            kind: InputKind::LargeMarkdown,
            reason: Some("exceeds managed threshold; large path may require explicit budget"@),
        }
    } else if file.size > LARGE_MARKDOWN_THRESHOLD_BYTES {
        ClassifiedV { relative_path: file.relative_path@, size: file.size, kind: InputKind::LargeMarkdown, reason: None }
    } else {
        ClassifiedV { relative_path: file.relative_path@, size: file.size, kind: InputKind::RegularMarkdown, reason: None }
    }
}

/// Does the path name a Markdown file?
pub fn is_markdown(rel: &str) -> (b: bool)
    ensures
        b == is_markdown_path(rel@),
{
    let ext = extension_exec(&file_name_exec(rel));
    crate::strs::eq_str(&ext, "md")
}

/// Check the content of a Markdown file: no NUL byte, and well-formed UTF-8.
pub fn validate_utf8_markdown(bytes: &[u8]) -> (r: Result<(), String>)
    ensures
        bytes@.contains(0u8) ==> (r matches Err(e) && e@ == "contains NULL byte"@),
        !bytes@.contains(0u8) && valid_utf8(bytes@) ==> r is Ok,
        !bytes@.contains(0u8) && !valid_utf8(bytes@) ==> (r matches Err(e) && crate::strs::starts_with(e@, "invalid UTF-8: "@)),
{
    let mut i: usize = 0;
    while i < bytes.len()
        invariant
            i <= bytes@.len(),
            forall|k: int| 0 <= k < i ==> bytes@[k] != 0u8,
        decreases bytes@.len() - i,
    {
        if bytes[i] == 0 {
            return Err(String::from_str("contains NULL byte"));
        }
        i = i + 1;
    }
    assert(!bytes@.contains(0u8));
    match crate::strs::str_from_utf8(bytes) {
        Ok(_) => Ok(()),
        Err((msg, _)) => {
            let mut m = String::from_str("invalid UTF-8: ");
            m.append(msg.as_str());
            proof {
                assert(m@.subrange(0, "invalid UTF-8: "@.len() as int) =~= "invalid UTF-8: "@);
            }
            Err(m)
        },
    }
}

fn skipped(file: &ScannedFile, reason: String) -> (r: ClassifiedInput)
    ensures
        r@ == (ClassifiedV { relative_path: file.relative_path@, size: file.size, kind: InputKind::Skipped, reason: Some(reason@) }),
{
    ClassifiedInput { relative_path: file.relative_path.clone(), size: file.size, kind: InputKind::Skipped, reason: Some(reason) }
}

/// Classify one scanned file. `check` is what checking its content gave
/// (`validate_utf8_markdown` on its bytes, or why they could not be read);
/// it is looked at only for Markdown files.
pub fn classify_file(file: &ScannedFile, check: &Result<(), String>) -> (r: ClassifiedInput)
    ensures
        r@ == classified(*file, failure_of(*check)),
{
    if !is_markdown(file.relative_path.as_str()) {
        return skipped(file, String::from_str("not markdown"));
    }
    match check {
        Err(reason) => {
            return skipped(file, reason.clone());
        },
        Ok(_) => {},
    }
    if file.size > MAX_MANAGED_MARKDOWN_BYTES {
        return ClassifiedInput {
            relative_path: file.relative_path.clone(),
            size: file.size,
            kind: InputKind::LargeMarkdown,
            reason: Some(String::from_str("exceeds managed threshold; large path may require explicit budget")),
        };
    }
    let kind = if file.size > LARGE_MARKDOWN_THRESHOLD_BYTES {
        InputKind::LargeMarkdown
    } else {
        InputKind::RegularMarkdown
    };
    ClassifiedInput { relative_path: file.relative_path.clone(), size: file.size, kind, reason: None }
}

/// Classify each scanned file with the outcome of checking its content, in order.
pub fn classify_scanned(files: &[ScannedFile], checks: &[Result<(), String>]) -> (r: Vec<ClassifiedInput>)
    requires
        checks@.len() == files@.len(),
    ensures
        r@.len() == files@.len(),
        forall|i: int| 0 <= i < files@.len() ==> #[trigger] r@[i]@ == classified(files@[i], failure_of(checks@[i])),
{
    let mut out: Vec<ClassifiedInput> = Vec::new();
    let mut i: usize = 0;
    while i < files.len()
        invariant
            i <= files@.len(),
            checks@.len() == files@.len(),
            out@.len() == i,
            forall|k: int| 0 <= k < i ==> #[trigger] out@[k]@ == classified(files@[k], failure_of(checks@[k])),
        decreases files@.len() - i,
    {
        let c = classify_file(&files[i], &checks[i]);
        out.push(c);
        i = i + 1;
    }
    out
}

} // verus!
