//! Entry-point files of a code base, recognised by their paths.
use vstd::prelude::*;
use crate::order::{key_eq, path_lt, path_lt_exec, sort_unique, strictly_sorted, Keyed};
use crate::paths::{components, file_name, file_name_exec};
use crate::scan::ScannedFile;
use crate::strs::{chars_eq, ends_with, ends_with_at, starts_with, starts_with_at, to_chars};

verus! {

broadcast use vstd::seq_lib::group_seq_properties, vstd::seq_lib::group_to_multiset_ensures;

#[derive(Debug, Clone, PartialEq, Eq)]
pub struct EntryPoint {
    pub file: String,
    pub language: &'static str,
    pub description: &'static str,
}

/// Language and description of an entry point.
pub struct EntryKind {
    pub language: Seq<char>,
    pub description: Seq<char>,
}

pub open spec fn names(a: Seq<char>, b: Seq<char>) -> Option<EntryKind> {
    Some(EntryKind { language: a, description: b })
}

pub open spec fn one_of(s: Seq<char>, xs: Seq<Seq<char>>) -> bool {
    xs.contains(s)
}

pub open spec fn has_slash(s: Seq<char>) -> bool {
    s.contains('/')
}

/// How a path is recognised as an entry point.
pub open spec fn classify_spec(rel: Seq<char>) -> Option<EntryKind> {
    let name = file_name(rel);
    if rel == "src/main.rs"@ {
        names("Rust"@, "binary crate entry (src/main.rs)"@)
    } else if rel == "src/lib.rs"@ {
        names("Rust"@, "library crate entry (src/lib.rs)"@)
    } else if starts_with(rel, "src/bin/"@) && ends_with(rel, ".rs"@) {
        names("Rust"@, "bin target"@)
    } else if one_of(rel, seq!["src/index.ts"@, "src/index.tsx"@, "src/index.js"@, "src/index.jsx"@]) {
        names("TypeScript/JavaScript"@, "module index"@)
    } else if one_of(name, seq!["index.ts"@, "index.tsx"@, "index.js"@, "index.jsx"@]) && !has_slash(rel) {
        names("TypeScript/JavaScript"@, "root index"@)
    } else if one_of(name, seq!["__main__.py"@, "main.py"@, "app.py"@, "manage.py"@]) {
        names("Python"@, "module/app entry"@)
    } else if rel == "main.go"@ {
        names("Go"@, "main package"@)
    } else if starts_with(rel, "cmd/"@) && name == "main.go"@ {
        names("Go"@, "cmd binary"@)
    } else {
        None
    }
}

fn eq_lit(v: &[char], s: &str) -> (b: bool)
    ensures
        b == (v@ == s@),
{
    chars_eq(v, &to_chars(s))
}

fn has_slash_exec(v: &[char]) -> (b: bool)
    ensures
        b == has_slash(v@),
{
    let mut i: usize = 0;
    while i < v.len()
        invariant
            i <= v@.len(),
            forall|k: int| 0 <= k < i ==> v@[k] != '/',
        decreases v@.len() - i,
    {
        if v[i] == '/' {
            assert(v@[i as int] == '/');
            return true;
        }
        i = i + 1;
    }
    false
}

fn ep(rel: &str, language: &'static str, description: &'static str) -> (e: EntryPoint)
    ensures
        e.file@ == rel@,
        e.language@ == language@,
        e.description@ == description@,
{
    EntryPoint { file: String::from_str(rel), language, description }
}

pub open spec fn matches_kind(e: EntryPoint, k: EntryKind) -> bool {
    e.language@ == k.language && e.description@ == k.description
}

/// The entry point a path stands for, if any.
pub fn classify(rel: &str) -> (r: Option<EntryPoint>)
    ensures
        match classify_spec(rel@) {
            Some(k) => r matches Some(e) && e.file@ == rel@ && matches_kind(e, k),
            None => r is None,
        },
{
    let v = to_chars(rel);
    let name = file_name_exec(rel);
    assert(v@.subrange(0, v@.len() as int) =~= v@);
    if eq_lit(&v, "src/main.rs") {
        return Some(ep(rel, "Rust", "binary crate entry (src/main.rs)"));
    }
    if eq_lit(&v, "src/lib.rs") {
        return Some(ep(rel, "Rust", "library crate entry (src/lib.rs)"));
    }
    if starts_with_at(&v, 0, v.len(), &to_chars("src/bin/")) && ends_with_at(&v, 0, v.len(), &to_chars(".rs")) {
        return Some(ep(rel, "Rust", "bin target"));
    }
    let ghost l1 = seq!["src/index.ts"@, "src/index.tsx"@, "src/index.js"@, "src/index.jsx"@];
    if eq_lit(&v, "src/index.ts") || eq_lit(&v, "src/index.tsx") || eq_lit(&v, "src/index.js") || eq_lit(&v, "src/index.jsx") {
        assert(l1.contains(rel@)) by {
            if rel@ == "src/index.ts"@ { assert(l1[0] == rel@); }
            else if rel@ == "src/index.tsx"@ { assert(l1[1] == rel@); }
            else if rel@ == "src/index.js"@ { assert(l1[2] == rel@); }
            else { assert(l1[3] == rel@); }
        }
        return Some(ep(rel, "TypeScript/JavaScript", "module index"));
    }
    assert(!l1.contains(rel@)) by {
        if l1.contains(rel@) {
            let i = choose|i: int| 0 <= i && i < l1.len() && l1[i] == rel@;
            assert(i == 0 || i == 1 || i == 2 || i == 3);
        }
    }
    let ghost l2 = seq!["index.ts"@, "index.tsx"@, "index.js"@, "index.jsx"@];
    let is_idx = eq_lit(&name, "index.ts") || eq_lit(&name, "index.tsx") || eq_lit(&name, "index.js") || eq_lit(&name, "index.jsx");
    assert(is_idx == l2.contains(name@)) by {
        if l2.contains(name@) {
            let i = choose|i: int| 0 <= i && i < l2.len() && l2[i] == name@;
            assert(i == 0 || i == 1 || i == 2 || i == 3);
        }
        if is_idx {
            if name@ == "index.ts"@ { assert(l2[0] == name@); }
            else if name@ == "index.tsx"@ { assert(l2[1] == name@); }
            else if name@ == "index.js"@ { assert(l2[2] == name@); }
            else { assert(l2[3] == name@); }
        }
    }
    if is_idx && !has_slash_exec(&v) {
        return Some(ep(rel, "TypeScript/JavaScript", "root index"));
    }
    let ghost l3 = seq!["__main__.py"@, "main.py"@, "app.py"@, "manage.py"@];
    let is_py = eq_lit(&name, "__main__.py") || eq_lit(&name, "main.py") || eq_lit(&name, "app.py") || eq_lit(&name, "manage.py");
    assert(is_py == l3.contains(name@)) by {
        if l3.contains(name@) {
            let i = choose|i: int| 0 <= i && i < l3.len() && l3[i] == name@;
            assert(i == 0 || i == 1 || i == 2 || i == 3);
        }
        if is_py {
            if name@ == "__main__.py"@ { assert(l3[0] == name@); }
            else if name@ == "main.py"@ { assert(l3[1] == name@); }
            else if name@ == "app.py"@ { assert(l3[2] == name@); }
            else { assert(l3[3] == name@); }
        }
    }
    if is_py {
        return Some(ep(rel, "Python", "module/app entry"));
    }
    if eq_lit(&v, "main.go") {
        return Some(ep(rel, "Go", "main package"));
    }
    if starts_with_at(&v, 0, v.len(), &to_chars("cmd/")) && eq_lit(&name, "main.go") {
        return Some(ep(rel, "Go", "cmd binary"));
    }
    None
}

impl Keyed for EntryPoint {
    open spec fn key_lt(&self, other: &Self) -> bool {
        path_lt(self.file@, other.file@)
    }

    fn lt(&self, other: &Self) -> (r: bool) {
        path_lt_exec(self.file.as_str(), other.file.as_str())
    }

    proof fn lemma_asym(a: &Self, b: &Self) {
        crate::order::lemma_path_lt_asym(a.file@, b.file@);
    }

    proof fn lemma_neg_trans(a: &Self, b: &Self, c: &Self) {
        crate::order::lemma_path_le_trans(a.file@, b.file@, c.file@);
    }
}

/// The entry points of a file list: sorted by path, each path once.
pub open spec fn entry_points_spec(files: Seq<ScannedFile>, r: Seq<EntryPoint>) -> bool {
    &&& strictly_sorted(r)
    &&& forall|i: int| 0 <= i < r.len() ==> exists|k: int| #![trigger files[k]] 0 <= k && k < files.len()
        && files[k].relative_path@ == (#[trigger] r[i]).file@ && (classify_spec(r[i].file@) matches Some(c) && matches_kind(r[i], c))
    &&& forall|k: int| 0 <= k && k < files.len() && (#[trigger] classify_spec(files[k].relative_path@)) is Some ==> exists|i: int| 0 <= i && i < r.len()
        && !path_lt((#[trigger] r[i]).file@, files[k].relative_path@) && !path_lt(files[k].relative_path@, r[i].file@)
}

/// An entry point that stands for a scanned file and its classification.
pub open spec fn found_for(files: Seq<ScannedFile>, k: int, e: EntryPoint) -> bool {
    0 <= k && k < files.len() && files[k].relative_path@ == e.file@
        && (classify_spec(e.file@) matches Some(c) && matches_kind(e, c))
}

/// Classify every scanned file, in order.
fn collect_entries(scanned: &[ScannedFile]) -> (r: (Vec<EntryPoint>, Ghost<Seq<int>>, Ghost<Seq<int>>))
    ensures
        r.1@.len() == r.0@.len(),
        forall|j: int| #![trigger r.0@[j]] 0 <= j < r.0@.len() ==> found_for(scanned@, r.1@[j], r.0@[j]),
        r.2@.len() == scanned@.len(),
        forall|k: int| #![trigger r.2@[k]] 0 <= k && k < scanned@.len() && classify_spec(scanned@[k].relative_path@) is Some
            ==> 0 <= r.2@[k] < r.0@.len() && r.0@[r.2@[k]].file@ == scanned@[k].relative_path@,
{
    let mut found: Vec<EntryPoint> = Vec::new();
    let ghost mut src: Seq<int> = Seq::empty();
    let ghost mut pos: Seq<int> = Seq::empty();
    let mut i: usize = 0;
    while i < scanned.len()
        invariant
            i <= scanned@.len(),
            src.len() == found@.len(),
            forall|j: int| #![trigger found@[j]] 0 <= j < found@.len() ==> found_for(scanned@, src[j], found@[j]),
            forall|j: int| 0 <= j < found@.len() ==> src[j] < i,
            pos.len() == i,
            forall|k: int| #![trigger pos[k]] 0 <= k && k < i && classify_spec(scanned@[k].relative_path@) is Some
                ==> 0 <= pos[k] < found@.len() && found@[pos[k]].file@ == scanned@[k].relative_path@,
        decreases scanned@.len() - i,
    {
        match classify(scanned[i].relative_path.as_str()) {
            Some(e) => {
                let ghost before = found@;
                found.push(e);
                proof {
                    src = src.push(i as int);
                    pos = pos.push(before.len() as int);
                    assert forall|j: int| #![trigger found@[j]] 0 <= j < found@.len() implies found_for(scanned@, src[j], found@[j]) by {
                        if j < before.len() {
                            assert(found@[j] == before[j]);
                        }
                    }
                    assert forall|k: int| #![trigger pos[k]] 0 <= k < i + 1 && classify_spec(scanned@[k].relative_path@) is Some
                        implies 0 <= pos[k] < found@.len() && found@[pos[k]].file@ == scanned@[k].relative_path@ by {
                        if k < i {
                            assert(found@[pos[k]] == before[pos[k]]);
                        }
                    }
                }
            },
            None => {
                proof {
                    pos = pos.push(-1);
                }
            },
        }
        i = i + 1;
    }
    (found, Ghost(src), Ghost(pos))
}

/// Find the files that look like entry points, at the root and in the usual places.
pub fn detect_entry_points(scanned: &[ScannedFile]) -> (r: Vec<EntryPoint>)
    ensures
        entry_points_spec(scanned@, r@),
{
    let (found, Ghost(src), Ghost(pos)) = collect_entries(scanned);
    let ghost f = found@;
    let (r, Ghost(w)) = sort_unique(found);
    proof {
        assert forall|i: int| 0 <= i < r@.len() implies exists|k: int| #![trigger scanned@[k]] 0 <= k && k < scanned@.len()
            && scanned@[k].relative_path@ == (#[trigger] r@[i]).file@ && (classify_spec(r@[i].file@) matches Some(c) && matches_kind(r@[i], c)) by {
            assert(f.contains(r@[i]));
            let j = choose|j: int| 0 <= j && j < f.len() && f[j] == r@[i];
            assert(found_for(scanned@, src[j], f[j]));
            let k = src[j];
            assert(scanned@[k].relative_path@ == r@[i].file@);
        }
        assert forall|k: int| 0 <= k && k < scanned@.len() && (#[trigger] classify_spec(scanned@[k].relative_path@)) is Some implies exists|i: int| 0 <= i && i < r@.len()
            && !path_lt((#[trigger] r@[i]).file@, scanned@[k].relative_path@) && !path_lt(scanned@[k].relative_path@, r@[i].file@) by {
            assert(pos[k] == pos[k]);
            let j = pos[k];
            assert(w[j] == w[j]);
            let i = w[j];
            assert(r@[i] == r@[i]);
        }
    }
    r
}

} // verus!
