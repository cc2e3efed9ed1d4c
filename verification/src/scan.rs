//! The files a directory walk keeps. The walk itself (reading directories and
//! file heads) is I/O and stays outside the library; what it keeps, and in
//! which order, is decided here.
use vstd::prelude::*;
use vstd::utf8::valid_utf8;
use crate::order::{lemma_path_le_trans, lemma_path_lt_asym, path_lt, path_lt_exec, sort_by_key, sorted_by_key, Keyed};
use crate::strs::{eq_str, to_chars};

verus! {

/// How many leading bytes of a file decide whether it is text.
pub const PEEK_BYTES: usize = 8192;

/// One file found by the walk: its path relative to the input root and its size.
#[derive(Debug, Clone, PartialEq, Eq)]
pub struct ScannedFile {
    pub relative_path: String,
    pub size: u64,
}

/// What the walk starts from.
pub struct ScanConfig {
    pub root: String,
    /// Further paths to leave out (such as the output directory).
    pub extra_excluded: Vec<String>,
    /// Whether the walk goes below the top level.
    pub recursive: bool,
}

/// Names that are never walked into or taken, file or directory.
pub open spec fn is_excluded_name(name: Seq<char>) -> bool {
    name == ".git"@ || name == "node_modules"@ || name == "dist"@ || name == "build"@ || name == "target"@
}

/// Whether the walk leaves out an entry below the root: a directory given
/// as excluded, an excluded name, or a hidden directory other than `.wiki`.
/// `name` is `None` where the entry's name is not valid Unicode.
pub open spec fn prunes(depth: nat, is_dir: bool, excluded_dir: bool, name: Option<Seq<char>>) -> bool {
    if depth == 0 {
        false
    } else if is_dir && excluded_dir {
        true
    } else {
        match name {
            None => false,
            Some(n) => is_excluded_name(n) || (is_dir && n.len() > 0 && n[0] == '.' && n != ".wiki"@),
        }
    }
}

/// Whether the walk leaves out an entry (and, for a directory, all below it).
/// `excluded_dir` says whether the entry's absolute path is one of the
/// configured exclusions.
pub fn should_prune(depth: usize, is_dir: bool, excluded_dir: bool, name: Option<&str>) -> (r: bool)
    ensures
        r == prunes(depth as nat, is_dir, excluded_dir, match name { Some(n) => Some(n@), None => None }),
{
    if depth == 0 {
        return false;
    }
    if is_dir && excluded_dir {
        return true;
    }
    match name {
        None => false,
        Some(name) => {
            let v = to_chars(name);
            let n = v.as_slice();
            let excluded = eq_str(n, ".git") || eq_str(n, "node_modules") || eq_str(n, "dist") || eq_str(n, "build")
                || eq_str(n, "target");
            proof {
                reveal_strlit(".git");
                reveal_strlit("node_modules");
                reveal_strlit("dist");
                reveal_strlit("build");
                reveal_strlit("target");
            }
            if excluded {
                return true;
            }
            let hidden = is_dir && n.len() > 0 && n[0] == '.' && !eq_str(n, ".wiki");
            proof {
                reveal_strlit(".wiki");
            }
            hidden
        },
    }
}

/// The first bytes of a file read as text: no NUL byte, and well-formed UTF-8
/// except that the last character may be cut off where the head ends.
pub open spec fn head_is_text(head: Seq<u8>) -> bool {
    !head.contains(0u8) && exists|rest: Seq<u8>| #[trigger] valid_utf8(head + rest)
}

/// Whether a file whose first bytes are `head` is taken as text.
pub fn is_probably_text(head: &[u8]) -> (r: bool)
    ensures
        r == head_is_text(head@),
{
    let mut i: usize = 0;
    while i < head.len()
        invariant
            i <= head@.len(),
            forall|k: int| 0 <= k < i ==> head@[k] != 0u8,
        decreases head@.len() - i,
    {
        if head[i] == 0 {
            assert(head@.contains(0u8)) by {
                assert(head@[i as int] == 0u8);
            }
            return false;
        }
        i = i + 1;
    }
    match crate::strs::str_from_utf8(head) {
        Ok(_) => {
            assert(head@ + Seq::<u8>::empty() =~= head@);
            assert(valid_utf8(head@ + Seq::<u8>::empty()));
            true
        },
        Err((_, cut)) => cut,
    }
}

/// Scanned files order by their relative path, as paths order.
impl Keyed for ScannedFile {
    open spec fn key_lt(&self, other: &Self) -> bool {
        path_lt(self.relative_path@, other.relative_path@)
    }

    fn lt(&self, other: &Self) -> (r: bool) {
        path_lt_exec(self.relative_path.as_str(), other.relative_path.as_str())
    }

    proof fn lemma_asym(a: &Self, b: &Self) {
        lemma_path_lt_asym(a.relative_path@, b.relative_path@);
    }

    proof fn lemma_neg_trans(a: &Self, b: &Self, c: &Self) {
        lemma_path_le_trans(a.relative_path@, b.relative_path@, c.relative_path@);
    }
}

/// The files of `walked` that the walk keeps, in the order found.
pub open spec fn kept_files(walked: Seq<(ScannedFile, Option<Vec<u8>>)>) -> Seq<ScannedFile>
    decreases walked.len(),
{
    if walked.len() == 0 {
        seq![]
    } else if keeps(walked.last()) {
        kept_files(walked.drop_last()).push(walked.last().0)
    } else {
        kept_files(walked.drop_last())
    }
}

/// The files the walk found that it keeps (those whose head reads as text,
/// of any size: how large a Markdown file is matters only when inputs are
/// classified), in path order. Each walked file
/// comes with the first `PEEK_BYTES` bytes of its content (`None` where they
/// could not be read).
pub fn select_scanned(walked: Vec<(ScannedFile, Option<Vec<u8>>)>) -> (r: Vec<ScannedFile>)
    ensures
        sorted_by_key(r@),
        r@.to_multiset() == kept_files(walked@).to_multiset(),
{
    let mut kept: Vec<ScannedFile> = Vec::new();
    let mut i: usize = 0;
    assert(walked@.take(0) =~= Seq::<(ScannedFile, Option<Vec<u8>>)>::empty());
    while i < walked.len()
        invariant
            i <= walked@.len(),
            kept@ == kept_files(walked@.take(i as int)),
        decreases walked@.len() - i,
    {
        let w = &walked[i];
        let keep_it = match &w.1 {
            Some(head) => is_probably_text(head.as_slice()),
            None => false,
        };
        proof {
            let t = walked@.take(i + 1);
            assert(t.drop_last() =~= walked@.take(i as int));
            assert(t.last() == walked@[i as int]);
            assert(keep_it == keeps(walked@[i as int]));
        }
        if keep_it {
            kept.push(ScannedFile { relative_path: w.0.relative_path.clone(), size: w.0.size });
        }
        i = i + 1;
    }
    assert(walked@.take(walked@.len() as int) =~= walked@);
    sort_by_key(kept)
}

/// Whether the walk keeps a file, given its head.
pub open spec fn keeps(w: (ScannedFile, Option<Vec<u8>>)) -> bool {
    match w.1 {
        Some(head) => head_is_text(head@),
        None => false,
    }
}

} // verus!
