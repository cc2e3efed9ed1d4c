//! Where the tests of a code base live: test directories and test files.
use vstd::prelude::*;
use crate::order::{key_eq, path_lt, sort_unique, strictly_sorted};
use crate::paths::{components, components_exec, file_name, file_name_exec, path_of};
use crate::scan::ScannedFile;
use crate::strs::{ends_with, ends_with_str, eq_str, from_chars, join_chars, starts_with, starts_with_str, to_chars, vv};

verus! {



/// Test directories (sorted, each once) and test files (sorted, each once).
#[derive(Debug, Default)]
pub struct TestLayout {
    pub test_dirs: Vec<String>,
    pub test_files: Vec<String>,
}

pub open spec fn is_test_dir_name(c: Seq<char>) -> bool {
    c == "tests"@ || c == "test"@ || c == "__tests__"@ || c == "spec"@
}

/// Index of the first component that names a test directory (`cs.len()` when none does).
pub open spec fn first_test_dir(cs: Seq<Seq<char>>) -> nat
    decreases cs.len(),
{
    if cs.len() == 0 {
        0
    } else if is_test_dir_name(cs[0]) {
        0
    } else {
        1 + first_test_dir(cs.drop_first())
    }
}

pub proof fn lemma_first_test_dir(cs: Seq<Seq<char>>)
    ensures
        first_test_dir(cs) <= cs.len(),
        first_test_dir(cs) < cs.len() ==> is_test_dir_name(cs[first_test_dir(cs) as int]),
        forall|k: int| 0 <= k < first_test_dir(cs) ==> !is_test_dir_name(#[trigger] cs[k]),
    decreases cs.len(),
{
    if cs.len() > 0 && !is_test_dir_name(cs[0]) {
        lemma_first_test_dir(cs.drop_first());
        assert forall|k: int| 0 <= k < first_test_dir(cs) implies !is_test_dir_name(#[trigger] cs[k]) by {
            if k > 0 {
                assert(cs[k] == cs.drop_first()[k - 1]);
            }
        }
    }
}

/// The path up to and including the first test-directory component, if any.
#[verifier::opaque]
pub open spec fn test_dir_ancestor_spec(rel: Seq<char>) -> Option<Seq<char>> {
    let cs = components(rel);
    let k = first_test_dir(cs);
    if k < cs.len() {
        Some(path_of(cs.take(k + 1 as int)))
    } else {
        None
    }
}

/// Test files by naming convention (Rust, Go, JS/TS, Python).
#[verifier::opaque]
pub open spec fn is_test_file_spec(rel: Seq<char>) -> bool {
    let name = file_name(rel);
    ||| ends_with(name, "_test.rs"@)
    ||| ends_with(name, "_tests.rs"@)
    ||| ends_with(name, "_test.go"@)
    ||| ends_with(name, ".test.ts"@)
    ||| ends_with(name, ".test.tsx"@)
    ||| ends_with(name, ".test.js"@)
    ||| ends_with(name, ".test.jsx"@)
    ||| ends_with(name, ".spec.ts"@)
    ||| ends_with(name, ".spec.js"@)
    ||| ((starts_with(name, "test_"@) || ends_with(name, "_test.py"@)) && ends_with(name, ".py"@))
}

/// A file counts as a test when its name says so or it lies in a test directory.
pub open spec fn counts_as_test(rel: Seq<char>) -> bool {
    is_test_file_spec(rel) || test_dir_ancestor_spec(rel) is Some
}

pub fn is_test_file(rel: &str) -> (b: bool)
    ensures
        b == is_test_file_spec(rel@),
{
    reveal(is_test_file_spec);
    let name = file_name_exec(rel);
    if ends_with_str(&name, "_test.rs") || ends_with_str(&name, "_tests.rs") {
        return true;
    }
    if ends_with_str(&name, "_test.go") {
        return true;
    }
    if ends_with_str(&name, ".test.ts") || ends_with_str(&name, ".test.tsx") || ends_with_str(&name, ".test.js")
        || ends_with_str(&name, ".test.jsx") || ends_with_str(&name, ".spec.ts") || ends_with_str(&name, ".spec.js")
    {
        return true;
    }
    if (starts_with_str(&name, "test_") || ends_with_str(&name, "_test.py")) && ends_with_str(&name, ".py") {
        return true;
    }
    false
}

fn is_test_dir_name_exec(c: &[char]) -> (b: bool)
    ensures
        b == is_test_dir_name(c@),
{
    eq_str(c, "tests") || eq_str(c, "test") || eq_str(c, "__tests__") || eq_str(c, "spec")
}

pub fn test_dir_ancestor(rel: &str) -> (r: Option<String>)
    ensures
        match test_dir_ancestor_spec(rel@) {
            Some(d) => r matches Some(s) && s@ == d,
            None => r is None,
        },
{
    reveal(test_dir_ancestor_spec);
    let cs = components_exec(&to_chars(rel));
    proof {
        lemma_first_test_dir(vv(&cs));
    }
    let mut acc: Vec<Vec<char>> = Vec::new();
    let mut i: usize = 0;
    while i < cs.len()
        invariant
            i <= cs@.len(),
            vv(&cs) == components(rel@),
            vv(&acc) == vv(&cs).take(i as int),
            first_test_dir(vv(&cs)) <= cs@.len(),
            first_test_dir(vv(&cs)) < cs@.len() ==> is_test_dir_name(vv(&cs)[first_test_dir(vv(&cs)) as int]),
            forall|k: int| 0 <= k < first_test_dir(vv(&cs)) ==> !is_test_dir_name(#[trigger] vv(&cs)[k]),
            i <= first_test_dir(vv(&cs)),
        decreases cs@.len() - i,
    {
        let c = crate::strs::slice_copy(&cs[i], 0, cs[i].len());
        assert(cs@[i as int]@.subrange(0, cs@[i as int]@.len() as int) =~= cs@[i as int]@);
        assert(vv(&cs)[i as int] == cs@[i as int]@);
        let hit = is_test_dir_name_exec(&c);
        crate::strs::push_vec(&mut acc, c);
        assert(vv(&acc) =~= vv(&cs).take(i + 1));
        if hit {
            proof {
                reveal(test_dir_ancestor_spec);
            }
            let sep = ['/'];
            assert(sep@ =~= seq!['/']);
            return Some(from_chars(&join_chars(&acc, &sep)));
        }
        i = i + 1;
    }
    proof {
        reveal(test_dir_ancestor_spec);
    }
    None
}

/// `p` is the path of scanned file `k`, and that file counts as a test.
pub open spec fn file_from(files: Seq<ScannedFile>, k: int, p: Seq<char>) -> bool {
    0 <= k && k < files.len() && files[k].relative_path@ == p && counts_as_test(p)
}

/// `d` is the test directory above scanned file `k`.
pub open spec fn dir_from(files: Seq<ScannedFile>, k: int, d: Seq<char>) -> bool {
    0 <= k && k < files.len() && test_dir_ancestor_spec(files[k].relative_path@) == Some(d)
}

/// The paths of the scanned files that count as tests.
pub open spec fn test_file_paths(files: Seq<ScannedFile>) -> Set<Seq<char>> {
    Set::new(|p: Seq<char>| exists|k: int| file_from(files, k, p))
}

/// The test directories above the scanned files.
pub open spec fn test_dir_paths(files: Seq<ScannedFile>) -> Set<Seq<char>> {
    Set::new(|d: Seq<char>| exists|k: int| dir_from(files, k, d))
}

/// `r` lists, sorted by path and each once, the scanned files that count as tests.
pub open spec fn lists_test_files(files: Seq<ScannedFile>, r: Seq<String>) -> bool {
    &&& strictly_sorted(r)
    &&& forall|i: int| 0 <= i < r.len() ==> test_file_paths(files).contains((#[trigger] r[i])@)
    &&& forall|k: int| 0 <= k && k < files.len() && #[trigger] counts_as_test(files[k].relative_path@) ==> exists|i: int| 0 <= i && i < r.len()
        && !path_lt((#[trigger] r[i])@, files[k].relative_path@) && !path_lt(files[k].relative_path@, r[i]@)
}

/// `r` lists, sorted by path and each once, the test directories above the scanned files.
pub open spec fn lists_test_dirs(files: Seq<ScannedFile>, r: Seq<String>) -> bool {
    &&& strictly_sorted(r)
    &&& forall|i: int| 0 <= i < r.len() ==> test_dir_paths(files).contains((#[trigger] r[i])@)
    &&& forall|k: int| 0 <= k && k < files.len() && (#[trigger] test_dir_ancestor_spec(files[k].relative_path@)) is Some ==> exists|i: int| 0 <= i && i < r.len()
        && !path_lt((#[trigger] r[i])@, test_dir_ancestor_spec(files[k].relative_path@)->0)
        && !path_lt(test_dir_ancestor_spec(files[k].relative_path@)->0, r[i]@)
}

/// What `detect_test_layout` returns, over the scanned paths.
pub open spec fn test_layout_spec(files: Seq<ScannedFile>, l: TestLayout) -> bool {
    lists_test_files(files, l.test_files@) && lists_test_dirs(files, l.test_dirs@)
}

/// The candidates before sorting: index maps tie each to its scanned file and back.
fn collect_tests(scanned: &[ScannedFile]) -> (r: (Vec<String>, Vec<String>, Ghost<(Seq<int>, Seq<int>, Seq<int>, Seq<int>)>))
    ensures
        r.2@.0.len() == r.0@.len() && r.2@.1.len() == scanned@.len(),
        r.2@.2.len() == r.1@.len() && r.2@.3.len() == scanned@.len(),
        forall|j: int| #![trigger r.0@[j]] 0 <= j < r.0@.len() ==> file_from(scanned@, r.2@.0[j], r.0@[j]@),
        forall|k: int| #![trigger r.2@.1[k]] 0 <= k && k < scanned@.len() && counts_as_test(scanned@[k].relative_path@)
            ==> 0 <= r.2@.1[k] && r.2@.1[k] < r.0@.len() && r.0@[r.2@.1[k]]@ == scanned@[k].relative_path@,
        forall|j: int| #![trigger r.1@[j]] 0 <= j < r.1@.len() ==> dir_from(scanned@, r.2@.2[j], r.1@[j]@),
        forall|k: int| #![trigger r.2@.3[k]] 0 <= k && k < scanned@.len() && test_dir_ancestor_spec(scanned@[k].relative_path@) is Some
            ==> 0 <= r.2@.3[k] && r.2@.3[k] < r.1@.len() && Some(r.1@[r.2@.3[k]]@) == test_dir_ancestor_spec(scanned@[k].relative_path@),
{
    let mut files: Vec<String> = Vec::new();
    let mut dirs: Vec<String> = Vec::new();
    let ghost mut fsrc: Seq<int> = Seq::empty();
    let ghost mut fpos: Seq<int> = Seq::empty();
    let ghost mut dsrc: Seq<int> = Seq::empty();
    let ghost mut dpos: Seq<int> = Seq::empty();
    let mut i: usize = 0;
    while i < scanned.len()
        invariant
            i <= scanned@.len(),
            fsrc.len() == files@.len() && fpos.len() == i,
            dsrc.len() == dirs@.len() && dpos.len() == i,
            forall|j: int| #![trigger files@[j]] 0 <= j < files@.len() ==> file_from(scanned@, fsrc[j], files@[j]@),
            forall|k: int| #![trigger fpos[k]] 0 <= k && k < i && counts_as_test(scanned@[k].relative_path@)
                ==> 0 <= fpos[k] && fpos[k] < files@.len() && files@[fpos[k]]@ == scanned@[k].relative_path@,
            forall|j: int| #![trigger dirs@[j]] 0 <= j < dirs@.len() ==> dir_from(scanned@, dsrc[j], dirs@[j]@),
            forall|k: int| #![trigger dpos[k]] 0 <= k && k < i && test_dir_ancestor_spec(scanned@[k].relative_path@) is Some
                ==> 0 <= dpos[k] && dpos[k] < dirs@.len() && Some(dirs@[dpos[k]]@) == test_dir_ancestor_spec(scanned@[k].relative_path@),
        decreases scanned@.len() - i,
    {
        let rel = &scanned[i].relative_path;
        let in_dir = test_dir_ancestor(rel.as_str());
        let ghost bf = files@;
        let ghost bd = dirs@;
        if is_test_file(rel.as_str()) || in_dir.is_some() {
            files.push(rel.clone());
            proof {
                fsrc = fsrc.push(i as int);
                fpos = fpos.push(bf.len() as int);
            }
        } else {
            proof {
                fpos = fpos.push(-1);
            }
        }
        match in_dir {
            Some(d) => {
                dirs.push(d);
                proof {
                    dsrc = dsrc.push(i as int);
                    dpos = dpos.push(bd.len() as int);
                }
            },
            None => {
                proof {
                    dpos = dpos.push(-1);
                }
            },
        }
        proof {
            assert forall|j: int| #![trigger files@[j]] 0 <= j < files@.len() implies file_from(scanned@, fsrc[j], files@[j]@) by {
                if j < bf.len() {
                    assert(files@[j] == bf[j]);
                } else {
                    assert(files@[j] == scanned@[i as int].relative_path);
                }
            }
            assert forall|k: int| #![trigger fpos[k]] 0 <= k < i + 1 && counts_as_test(scanned@[k].relative_path@)
                implies 0 <= fpos[k] && fpos[k] < files@.len() && files@[fpos[k]]@ == scanned@[k].relative_path@ by {
                if k < i {
                    assert(files@[fpos[k]] == bf[fpos[k]]);
                }
            }
            assert forall|j: int| #![trigger dirs@[j]] 0 <= j < dirs@.len() implies dir_from(scanned@, dsrc[j], dirs@[j]@) by {
                if j < bd.len() {
                    assert(dirs@[j] == bd[j]);
                } else {
                    assert(fsrc.len() == files@.len());
                }
            }
            assert forall|k: int| #![trigger dpos[k]] 0 <= k < i + 1 && test_dir_ancestor_spec(scanned@[k].relative_path@) is Some
                implies 0 <= dpos[k] && dpos[k] < dirs@.len() && Some(dirs@[dpos[k]]@) == test_dir_ancestor_spec(scanned@[k].relative_path@) by {
                if k < i {
                    assert(dirs@[dpos[k]] == bd[dpos[k]]);
                }
            }
        }
        i = i + 1;
    }
    (files, dirs, Ghost((fsrc, fpos, dsrc, dpos)))
}

#[verifier::rlimit(40)]
proof fn lemma_files_listed(scanned: Seq<ScannedFile>, fv: Seq<String>, fsrc: Seq<int>, fpos: Seq<int>, r: Seq<String>, wf: Seq<int>)
    requires
        fsrc.len() == fv.len(),
        fpos.len() == scanned.len(),
        forall|j: int| #![trigger fv[j]] 0 <= j < fv.len() ==> file_from(scanned, fsrc[j], fv[j]@),
        forall|k: int| #![trigger fpos[k]] 0 <= k < scanned.len() && counts_as_test(scanned[k].relative_path@)
            ==> 0 <= fpos[k] && fpos[k] < fv.len() && fv[fpos[k]]@ == scanned[k].relative_path@,
        strictly_sorted(r),
        forall|i: int| 0 <= i < r.len() ==> fv.contains(#[trigger] r[i]),
        wf.len() == fv.len(),
        forall|i: int| #![trigger wf[i]] 0 <= i < fv.len() ==> 0 <= wf[i] && wf[i] < r.len() && key_eq(r[wf[i]], fv[i]),
    ensures
        lists_test_files(scanned, r),
{
    assert forall|i: int| 0 <= i < r.len() implies test_file_paths(scanned).contains((#[trigger] r[i])@) by {
        assert(fv.contains(r[i]));
        let j = choose|j: int| 0 <= j && j < fv.len() && fv[j] == r[i];
        assert(fv[j] == fv[j]);
        assert(file_from(scanned, fsrc[j], r[i]@));
        assert(scanned[fsrc[j]] == scanned[fsrc[j]]);
    }
    assert forall|k: int| 0 <= k && k < scanned.len() && #[trigger] counts_as_test(scanned[k].relative_path@) implies exists|i: int| 0 <= i && i < r.len()
        && !path_lt((#[trigger] r[i])@, scanned[k].relative_path@) && !path_lt(scanned[k].relative_path@, r[i]@) by {
        assert(fpos[k] == fpos[k]);
        let j = fpos[k];
        assert(wf[j] == wf[j]);
        let i = wf[j];
        assert(key_eq(r[i], fv[j]));
    }
}

proof fn lemma_dirs_listed(scanned: Seq<ScannedFile>, dv: Seq<String>, dsrc: Seq<int>, dpos: Seq<int>, r: Seq<String>, wd: Seq<int>)
    requires
        dsrc.len() == dv.len(),
        dpos.len() == scanned.len(),
        forall|j: int| #![trigger dv[j]] 0 <= j < dv.len() ==> dir_from(scanned, dsrc[j], dv[j]@),
        forall|k: int| #![trigger dpos[k]] 0 <= k < scanned.len() && test_dir_ancestor_spec(scanned[k].relative_path@) is Some
            ==> 0 <= dpos[k] && dpos[k] < dv.len() && Some(dv[dpos[k]]@) == test_dir_ancestor_spec(scanned[k].relative_path@),
        strictly_sorted(r),
        forall|i: int| 0 <= i < r.len() ==> dv.contains(#[trigger] r[i]),
        wd.len() == dv.len(),
        forall|i: int| #![trigger wd[i]] 0 <= i < dv.len() ==> 0 <= wd[i] && wd[i] < r.len() && key_eq(r[wd[i]], dv[i]),
    ensures
        lists_test_dirs(scanned, r),
{
    assert forall|i: int| 0 <= i < r.len() implies test_dir_paths(scanned).contains((#[trigger] r[i])@) by {
        assert(dv.contains(r[i]));
        let j = choose|j: int| 0 <= j && j < dv.len() && dv[j] == r[i];
        assert(dv[j] == dv[j]);
        assert(dir_from(scanned, dsrc[j], r[i]@));
        assert(scanned[dsrc[j]] == scanned[dsrc[j]]);
    }
    assert forall|k: int| 0 <= k && k < scanned.len() && (#[trigger] test_dir_ancestor_spec(scanned[k].relative_path@)) is Some implies exists|i: int| 0 <= i && i < r.len()
        && !path_lt((#[trigger] r[i])@, test_dir_ancestor_spec(scanned[k].relative_path@)->0)
        && !path_lt(test_dir_ancestor_spec(scanned[k].relative_path@)->0, r[i]@) by {
        assert(dpos[k] == dpos[k]);
        let j = dpos[k];
        assert(wd[j] == wd[j]);
        let i = wd[j];
        assert(key_eq(r[i], dv[j]));
    }
}

/// Find the test directories (`tests`, `test`, `__tests__`, `spec`) and test files.
#[verifier::rlimit(40)]
pub fn detect_test_layout(scanned: &[ScannedFile]) -> (l: TestLayout)
    ensures
        test_layout_spec(scanned@, l),
{
    let (files, dirs, Ghost(g)) = collect_tests(scanned);
    let ghost fv = files@;
    let ghost dv = dirs@;
    let (test_files, Ghost(wf)) = sort_unique(files);
    let (test_dirs, Ghost(wd)) = sort_unique(dirs);
    proof {
        lemma_files_listed(scanned@, fv, g.0, g.1, test_files@, wf);
        lemma_dirs_listed(scanned@, dv, g.2, g.3, test_dirs@, wd);
    }
    TestLayout { test_dirs, test_files }
}

} // verus!
