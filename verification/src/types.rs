//! The outline of a project wiki: one node for the project and one for each
//! top-level directory.
use vstd::prelude::*;
use crate::strs::sv;

verus! {

/// A file a node points to, with a description of it.
pub struct KeyFile {
    pub path: String,
    pub description: String,
}

/// One page of the project outline.
pub struct WikiNode {
    pub title: String,
    pub output_path: String,
    pub summary: String,
    pub key_files: Vec<KeyFile>,
    pub responsibilities: Vec<String>,
    pub related: Vec<String>,
    pub read_next: Vec<String>,
}

/// The files of a project, relative to its root.
pub struct ScanResult {
    pub root: String,
    pub files: Vec<String>,
}

/// A node as plain values; a key file is its path and description.
#[verifier::ext_equal]
pub struct WikiNodeV {
    pub title: Seq<char>,
    pub output_path: Seq<char>,
    pub summary: Seq<char>,
    pub key_files: Seq<(Seq<char>, Seq<char>)>,
    pub responsibilities: Seq<Seq<char>>,
    pub related: Seq<Seq<char>>,
    pub read_next: Seq<Seq<char>>,
}

pub open spec fn key_files_view(v: Seq<KeyFile>) -> Seq<(Seq<char>, Seq<char>)> {
    v.map_values(|k: KeyFile| (k.path@, k.description@))
}

impl View for WikiNode {
    type V = WikiNodeV;

    open spec fn view(&self) -> WikiNodeV {
        WikiNodeV {
            title: self.title@,
            output_path: self.output_path@,
            summary: self.summary@,
            key_files: key_files_view(self.key_files@),
            responsibilities: sv(self.responsibilities@),
            related: sv(self.related@),
            read_next: sv(self.read_next@),
        }
    }
}

} // verus!
