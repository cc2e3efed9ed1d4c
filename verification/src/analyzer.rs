//! The outline of a project: an index node listing the top-level files, and
//! one node per top-level directory listing the files under it.
use vstd::prelude::*;
use crate::context_pack::{sorted_unique, texts_strict};
use crate::paths::{components, components_exec};
use crate::strs::{chars_eq, concat, from_chars, push_string, split_chars, split_on, sv, to_chars, vv};
use crate::types::{key_files_view, KeyFile, ScanResult, WikiNode, WikiNodeV};

verus! {

broadcast use vstd::seq_lib::group_seq_properties;

/// The page of a top-level directory.
pub open spec fn dir_page(d: Seq<char>) -> Seq<char> {
    "directories/"@ + d + ".md"@
}

/// The first component of each file that lies inside a directory, in order.
pub open spec fn top_dirs(files: Seq<Seq<char>>) -> Seq<Seq<char>>
    decreases files.len(),
{
    if files.len() == 0 {
        seq![]
    } else {
        let rest = top_dirs(files.drop_last());
        let cs = components(files.last());
        if cs.len() > 1 {
            rest.push(cs[0])
        } else {
            rest
        }
    }
}

/// The files at the top level, in order.
pub open spec fn top_files(files: Seq<Seq<char>>) -> Seq<Seq<char>>
    decreases files.len(),
{
    if files.len() == 0 {
        seq![]
    } else {
        let rest = top_files(files.drop_last());
        if components(files.last()).len() == 1 {
            rest.push(files.last())
        } else {
            rest
        }
    }
}

/// The files whose first component is `d`, in order.
pub open spec fn files_under(files: Seq<Seq<char>>, d: Seq<char>) -> Seq<Seq<char>>
    decreases files.len(),
{
    if files.len() == 0 {
        seq![]
    } else {
        let rest = files_under(files.drop_last(), d);
        let cs = components(files.last());
        if cs.len() > 0 && cs[0] == d {
            rest.push(files.last())
        } else {
            rest
        }
    }
}

/// The pages of the directories other than `d`, in order.
pub open spec fn sibling_pages(ds: Seq<Seq<char>>, d: Seq<char>) -> Seq<Seq<char>>
    decreases ds.len(),
{
    if ds.len() == 0 {
        seq![]
    } else {
        let rest = sibling_pages(ds.drop_last(), d);
        if ds.last() != d {
            rest.push(dir_page(ds.last()))
        } else {
            rest
        }
    }
}

/// Files listed with an empty description.
pub open spec fn undescribed(fs: Seq<Seq<char>>) -> Seq<(Seq<char>, Seq<char>)> {
    fs.map_values(|f: Seq<char>| (f, Seq::<char>::empty()))
}

/// The last named segment of a path: empty and `.` segments are passed
/// over; a trailing `..` names nothing.
pub open spec fn last_named(segs: Seq<Seq<char>>) -> Option<Seq<char>>
    decreases segs.len(),
{
    if segs.len() == 0 {
        None
    } else {
        let l = segs.last();
        if l.len() == 0 || l == seq!['.'] {
            last_named(segs.drop_last())
        } else if l == seq!['.', '.'] {
            None
        } else {
            Some(l)
        }
    }
}

/// The title of the project: the name of its root directory, else `Project`.
pub open spec fn root_title(root: Seq<char>) -> Seq<char> {
    match last_named(split_on(root, '/')) {
        Some(n) => n,
        None => "Project"@,
    }
}

/// The index node: the project's top-level files, and the directory pages
/// to read next.
pub open spec fn index_node(root: Seq<char>, files: Seq<Seq<char>>, ds: Seq<Seq<char>>) -> WikiNodeV {
    WikiNodeV {
        title: root_title(root),
        output_path: "index.md"@,
        summary: seq![],
        key_files: undescribed(top_files(files)),
        responsibilities: seq![],
        related: seq![],
        read_next: ds.map_values(|d: Seq<char>| dir_page(d)),
    }
}

/// The node of directory `d`: the files under it, and its sibling
/// directories' pages as related.
pub open spec fn dir_node(files: Seq<Seq<char>>, ds: Seq<Seq<char>>, d: Seq<char>) -> WikiNodeV {
    WikiNodeV {
        title: d,
        output_path: dir_page(d),
        summary: seq![],
        key_files: undescribed(files_under(files, d)),
        responsibilities: seq![],
        related: sibling_pages(ds, d),
        read_next: seq![],
    }
}

/// The titles of nodes, in order.
pub open spec fn titles(ns: Seq<WikiNode>) -> Seq<Seq<char>> {
    ns.map_values(|n: WikiNode| n.title@)
}

fn dir_page_exec(d: &[char]) -> (r: String)
    ensures
        r@ == dir_page(d@),
{
    let a = concat(&to_chars("directories/"), d);
    from_chars(&concat(&a, &to_chars(".md")))
}

fn first_components(files: &Vec<String>) -> (r: Vec<String>)
    ensures
        sv(r@) == top_dirs(sv(files@)),
{
    let mut out: Vec<String> = Vec::new();
    let mut i: usize = 0;
    while i < files.len()
        invariant
            i <= files@.len(),
            sv(out@) == top_dirs(sv(files@).take(i as int)),
        decreases files@.len() - i,
    {
        assert(sv(files@).take(i + 1).drop_last() =~= sv(files@).take(i as int));
        let cs = components_exec(&to_chars(files[i].as_str()));
        if cs.len() > 1 {
            push_string(&mut out, from_chars(&cs[0]));
        }
        i = i + 1;
    }
    assert(sv(files@).take(files@.len() as int) =~= sv(files@));
    out
}

fn empty_key_files() -> (r: Vec<KeyFile>)
    ensures
        r@.len() == 0,
{
    Vec::new()
}

/// The key files of the index node.
fn top_key_files(files: &Vec<String>) -> (r: Vec<KeyFile>)
    ensures
        key_files_view(r@) == undescribed(top_files(sv(files@))),
{
    let mut out = empty_key_files();
    let mut i: usize = 0;
    while i < files.len()
        invariant
            i <= files@.len(),
            key_files_view(out@) == undescribed(top_files(sv(files@).take(i as int))),
        decreases files@.len() - i,
    {
        assert(sv(files@).take(i + 1).drop_last() =~= sv(files@).take(i as int));
        let cs = components_exec(&to_chars(files[i].as_str()));
        if cs.len() == 1 {
            let ghost before = out@;
            out.push(KeyFile { path: files[i].clone(), description: String::new() });
            assert(key_files_view(out@) =~= key_files_view(before).push((files@[i as int]@, Seq::<char>::empty())));
        }
        i = i + 1;
    }
    assert(sv(files@).take(files@.len() as int) =~= sv(files@));
    out
}

fn skippable(l: &[char]) -> (b: bool)
    ensures
        b == (l@.len() == 0 || l@ == seq!['.']),
{
    let dot = ['.'];
    assert(dot@ =~= seq!['.']);
    l.len() == 0 || chars_eq(l, &dot)
}

/// The title of the project, from its root path.
fn root_title_exec(root: &str) -> (r: String)
    ensures
        r@ == root_title(root@),
{
    let segs = split_chars(&to_chars(root), '/');
    let mut j = segs.len();
    assert(vv(&segs).take(j as int) =~= vv(&segs));
    while j > 0 && skippable(&segs[j - 1])
        invariant
            j <= segs@.len(),
            vv(&segs) == split_on(root@, '/'),
            last_named(vv(&segs).take(j as int)) == last_named(vv(&segs)),
        decreases j,
    {
        assert(vv(&segs).take(j as int).drop_last() =~= vv(&segs).take(j - 1));
        j = j - 1;
    }
    let dotdot = ['.', '.'];
    assert(dotdot@ =~= seq!['.', '.']);
    if j == 0 {
        from_chars(&to_chars("Project"))
    } else if chars_eq(&segs[j - 1], &dotdot) {
        from_chars(&to_chars("Project"))
    } else {
        from_chars(&segs[j - 1])
    }
}

/// The key files of a directory node.
fn dir_key_files(files: &Vec<String>, d: &[char]) -> (r: Vec<KeyFile>)
    ensures
        key_files_view(r@) == undescribed(files_under(sv(files@), d@)),
{
    let mut out = empty_key_files();
    let mut i: usize = 0;
    while i < files.len()
        invariant
            i <= files@.len(),
            key_files_view(out@) == undescribed(files_under(sv(files@).take(i as int), d@)),
        decreases files@.len() - i,
    {
        assert(sv(files@).take(i + 1).drop_last() =~= sv(files@).take(i as int));
        let cs = components_exec(&to_chars(files[i].as_str()));
        if cs.len() > 0 && chars_eq(&cs[0], d) {
            let ghost before = out@;
            out.push(KeyFile { path: files[i].clone(), description: String::new() });
            assert(key_files_view(out@) =~= key_files_view(before).push((files@[i as int]@, Seq::<char>::empty())));
        }
        i = i + 1;
    }
    assert(sv(files@).take(files@.len() as int) =~= sv(files@));
    out
}

/// The pages of the directories other than `d`.
fn sibling_list(ds: &Vec<String>, d: &[char]) -> (r: Vec<String>)
    ensures
        sv(r@) == sibling_pages(sv(ds@), d@),
{
    let mut out: Vec<String> = Vec::new();
    let mut i: usize = 0;
    while i < ds.len()
        invariant
            i <= ds@.len(),
            sv(out@) == sibling_pages(sv(ds@).take(i as int), d@),
        decreases ds@.len() - i,
    {
        assert(sv(ds@).take(i + 1).drop_last() =~= sv(ds@).take(i as int));
        let x = to_chars(ds[i].as_str());
        if !chars_eq(&x, d) {
            push_string(&mut out, dir_page_exec(&x));
        }
        i = i + 1;
    }
    assert(sv(ds@).take(ds@.len() as int) =~= sv(ds@));
    out
}

fn read_next_list(ds: &Vec<String>) -> (r: Vec<String>)
    ensures
        sv(r@) == sv(ds@).map_values(|d: Seq<char>| dir_page(d)),
{
    let mut out: Vec<String> = Vec::new();
    let mut i: usize = 0;
    while i < ds.len()
        invariant
            i <= ds@.len(),
            sv(out@) == sv(ds@).take(i as int).map_values(|d: Seq<char>| dir_page(d)),
        decreases ds@.len() - i,
    {
        push_string(&mut out, dir_page_exec(&to_chars(ds[i].as_str())));
        assert(sv(ds@).take(i + 1).map_values(|d: Seq<char>| dir_page(d)) =~= sv(ds@).take(i as int).map_values(|d: Seq<char>| dir_page(d)).push(dir_page(ds@[i as int]@)));
        i = i + 1;
    }
    assert(sv(ds@).take(ds@.len() as int) =~= sv(ds@));
    out
}

fn empty_strings() -> (r: Vec<String>)
    ensures
        r@.len() == 0,
{
    Vec::new()
}

/// The outline of a project: first the index node, then one node per
/// top-level directory, in name order. The index lists the top-level files
/// and points to every directory page; each directory node lists the files
/// under it and relates to the other directories' pages.
pub fn analyze(scan: &ScanResult) -> (r: Vec<WikiNode>)
    ensures
        r@.len() >= 1,
        texts_strict(titles(r@.skip(1))),
        titles(r@.skip(1)).to_set() == top_dirs(sv(scan.files@)).to_set(),
        r@[0]@ == index_node(scan.root@, sv(scan.files@), titles(r@.skip(1))),
        forall|k: int| 1 <= k < r@.len() ==> (#[trigger] r@[k])@ == dir_node(sv(scan.files@), titles(r@.skip(1)), titles(r@.skip(1))[k - 1]),
{
    let dirs = sorted_unique(&first_components(&scan.files));
    let ghost ds = sv(dirs@);
    let ghost files = sv(scan.files@);
    let index = WikiNode {
        title: root_title_exec(scan.root.as_str()),
        output_path: from_chars(&to_chars("index.md")),
        summary: String::new(),
        key_files: top_key_files(&scan.files),
        responsibilities: empty_strings(),
        related: empty_strings(),
        read_next: read_next_list(&dirs),
    };
    assert(index@ =~= index_node(scan.root@, files, ds));
    let mut nodes: Vec<WikiNode> = Vec::new();
    nodes.push(index);
    let mut k: usize = 0;
    while k < dirs.len()
        invariant
            k <= dirs@.len(),
            ds == sv(dirs@),
            files == sv(scan.files@),
            nodes@.len() == k + 1,
            nodes@[0]@ == index_node(scan.root@, files, ds),
            forall|j: int| 1 <= j <= k ==> (#[trigger] nodes@[j]).title@ == ds[j - 1],
            forall|j: int| 1 <= j <= k ==> (#[trigger] nodes@[j])@ == dir_node(files, ds, ds[j - 1]),
        decreases dirs@.len() - k,
    {
        let d = to_chars(dirs[k].as_str());
        let node = WikiNode {
            title: dirs[k].clone(),
            output_path: dir_page_exec(&d),
            summary: String::new(),
            key_files: dir_key_files(&scan.files, &d),
            responsibilities: empty_strings(),
            related: sibling_list(&dirs, &d),
            read_next: empty_strings(),
        };
        assert(node@ =~= dir_node(files, ds, ds[k as int]));
        nodes.push(node);
        k = k + 1;
    }
    assert(titles(nodes@.skip(1)) =~= ds);
    nodes
}

} // verus!
