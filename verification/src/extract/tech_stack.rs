//! The technology stack of a project: which package manifests it holds, what
//! each one names, and the languages they stand for.
//!
//! Reading the manifests is the caller's part; so is decoding the TOML and
//! JSON manifests into their name and dependency keys. What each manifest
//! yields from its text, and how the findings are put together, is here.
use vstd::prelude::*;
use crate::context_pack::{sorted_unique, texts_strict};
use crate::order::{path_lt, path_lt_exec, sort_by_key, sorted_by_key, Keyed, lemma_path_le_trans, lemma_path_lt_asym};
use crate::notes::frontmatter::opt_view;
use crate::paths::{file_name, file_name_exec};
use crate::pattern::{
    captures, captures_all, groups_view, regex_all_captures, regex_captures, regex_replaced,
    replace_all,
};
use crate::strs::{
    eq_str, find_char, first_index_of, from_chars, lines, lines_chars, ltrim, ltrim_idx,
    push_string, slice_copy, starts_with, starts_with_str, sv, to_chars, trim, trim_idx, vv,
};

verus! {

broadcast use vstd::seq_lib::group_seq_properties;

/// The kinds of package manifest that are recognised, by file name.
#[derive(Debug, Clone, Copy, PartialEq, Eq, Structural)]
pub enum ManifestKind {
    CargoToml,
    PackageJson,
    PyprojectToml,
    RequirementsTxt,
    GoMod,
    PomXml,
    Gemfile,
}

impl ManifestKind {
    /// The language a manifest of this kind stands for.
    pub open spec fn language_text(self) -> Seq<char> {
        match self {
            ManifestKind::CargoToml => "Rust"@,
            ManifestKind::PackageJson => "JavaScript/TypeScript"@,
            ManifestKind::PyprojectToml | ManifestKind::RequirementsTxt => "Python"@,
            ManifestKind::GoMod => "Go"@,
            ManifestKind::PomXml => "Java"@,
            ManifestKind::Gemfile => "Ruby"@,
        }
    }

    /// The file name of a manifest of this kind.
    pub open spec fn label_text(self) -> Seq<char> {
        match self {
            ManifestKind::CargoToml => "Cargo.toml"@,
            ManifestKind::PackageJson => "package.json"@,
            ManifestKind::PyprojectToml => "pyproject.toml"@,
            ManifestKind::RequirementsTxt => "requirements.txt"@,
            ManifestKind::GoMod => "go.mod"@,
            ManifestKind::PomXml => "pom.xml"@,
            ManifestKind::Gemfile => "Gemfile"@,
        }
    }

    pub fn language(self) -> (r: &'static str)
        ensures
            r@ == self.language_text(),
    {
        match self {
            ManifestKind::CargoToml => "Rust",
            ManifestKind::PackageJson => "JavaScript/TypeScript",
            ManifestKind::PyprojectToml | ManifestKind::RequirementsTxt => "Python",
            ManifestKind::GoMod => "Go",
            ManifestKind::PomXml => "Java",
            ManifestKind::Gemfile => "Ruby",
        }
    }

    pub fn label(self) -> (r: &'static str)
        ensures
            r@ == self.label_text(),
    {
        match self {
            ManifestKind::CargoToml => "Cargo.toml",
            ManifestKind::PackageJson => "package.json",
            ManifestKind::PyprojectToml => "pyproject.toml",
            ManifestKind::RequirementsTxt => "requirements.txt",
            ManifestKind::GoMod => "go.mod",
            ManifestKind::PomXml => "pom.xml",
            ManifestKind::Gemfile => "Gemfile",
        }
    }
}

/// The kind of manifest a path names, by its file name.
pub open spec fn kind_of_name(name: Seq<char>) -> Option<ManifestKind> {
    if name == "Cargo.toml"@ {
        Some(ManifestKind::CargoToml)
    } else if name == "package.json"@ {
        Some(ManifestKind::PackageJson)
    } else if name == "pyproject.toml"@ {
        Some(ManifestKind::PyprojectToml)
    } else if name == "requirements.txt"@ {
        Some(ManifestKind::RequirementsTxt)
    } else if name == "go.mod"@ {
        Some(ManifestKind::GoMod)
    } else if name == "pom.xml"@ {
        Some(ManifestKind::PomXml)
    } else if name == "Gemfile"@ {
        Some(ManifestKind::Gemfile)
    } else {
        None
    }
}

/// The kind of manifest at a relative path, if its file name is one of them.
pub fn classify(rel: &str) -> (r: Option<ManifestKind>)
    ensures
        r == kind_of_name(file_name(rel@)),
{
    let name = file_name_exec(rel);
    if eq_str(&name, "Cargo.toml") {
        Some(ManifestKind::CargoToml)
    } else if eq_str(&name, "package.json") {
        Some(ManifestKind::PackageJson)
    } else if eq_str(&name, "pyproject.toml") {
        Some(ManifestKind::PyprojectToml)
    } else if eq_str(&name, "requirements.txt") {
        Some(ManifestKind::RequirementsTxt)
    } else if eq_str(&name, "go.mod") {
        Some(ManifestKind::GoMod)
    } else if eq_str(&name, "pom.xml") {
        Some(ManifestKind::PomXml)
    } else if eq_str(&name, "Gemfile") {
        Some(ManifestKind::Gemfile)
    } else {
        None
    }
}

/// One manifest found in the project.
#[derive(Debug, Clone)]
pub struct Manifest {
    pub file: String,
    pub kind: ManifestKind,
    pub project_name: Option<String>,
    pub dependencies: Vec<String>,
}

/// The manifests of a project and the languages they stand for.
#[derive(Debug)]
pub struct TechStack {
    /// The languages, sorted, each once.
    pub languages: Vec<String>,
    /// The manifests, ordered by path.
    pub manifests: Vec<Manifest>,
}

// ---------------------------------------------------------------------------
// Package names
// ---------------------------------------------------------------------------

/// `char::is_alphanumeric`: whether the character is Unicode `Alphabetic`
/// or numeric.
pub uninterp spec fn char_is_alphanumeric(c: char) -> bool;

/// `char::is_alphanumeric`. Its result is named `char_is_alphanumeric`; for
/// ASCII it holds, as the documentation of `char` states, of the letters and
/// digits alone.
#[verifier::external_body]
fn is_alphanumeric(c: char) -> (r: bool)
    ensures
        r == char_is_alphanumeric(c),
        ('a' <= c <= 'z' || 'A' <= c <= 'Z' || '0' <= c <= '9') ==> r,
{
    c.is_alphanumeric()
}

/// A character that may stand in a package name.
pub open spec fn pkg_char(c: char) -> bool {
    char_is_alphanumeric(c) || c == '-' || c == '_' || c == '.'
}

/// Number of leading package-name characters.
pub open spec fn pkg_len(s: Seq<char>) -> nat
    decreases s.len(),
{
    if s.len() > 0 && pkg_char(s[0]) {
        1 + pkg_len(s.drop_first())
    } else {
        0
    }
}

proof fn lemma_pkg_len(s: Seq<char>)
    ensures
        pkg_len(s) <= s.len(),
        forall|k: int| 0 <= k < pkg_len(s) ==> pkg_char(#[trigger] s[k]),
        pkg_len(s) < s.len() ==> !pkg_char(s[pkg_len(s) as int]),
    decreases s.len(),
{
    if s.len() > 0 && pkg_char(s[0]) {
        lemma_pkg_len(s.drop_first());
        assert forall|k: int| 0 <= k < pkg_len(s) implies pkg_char(#[trigger] s[k]) by {
            if k > 0 {
                assert(s[k] == s.drop_first()[k - 1]);
            }
        }
    }
}

/// The package a requirement names: its leading run of letters, digits and
/// `-_.`, after leading whitespace (`"requests>=2"` names `requests`).
pub open spec fn pkg_name(spec: Seq<char>) -> Seq<char> {
    let t = ltrim(spec);
    t.take(pkg_len(t) as int)
}

fn pkg_char_exec(c: char) -> (b: bool)
    ensures
        b == pkg_char(c),
{
    is_alphanumeric(c) || c == '-' || c == '_' || c == '.'
}

fn pkg_name_at(v: &[char], lo: usize, hi: usize) -> (r: Vec<char>)
    requires
        lo <= hi <= v@.len(),
    ensures
        r@ == pkg_name(v@.subrange(lo as int, hi as int)),
{
    let a = ltrim_idx(v, lo, hi);
    let ghost t = v@.subrange(a as int, hi as int);
    let mut e = a;
    while e < hi && pkg_char_exec(v[e])
        invariant
            lo <= a <= e <= hi <= v@.len(),
            t == v@.subrange(a as int, hi as int),
            pkg_len(t) == (e - a) + pkg_len(v@.subrange(e as int, hi as int)),
        decreases hi - e,
    {
        assert(v@.subrange(e as int, hi as int).drop_first() =~= v@.subrange(e + 1, hi as int));
        e = e + 1;
    }
    assert(pkg_len(t) == e - a) by {
        if e < hi {
            assert(v@.subrange(e as int, hi as int)[0] == v@[e as int]);
        }
    }
    assert(t.take(pkg_len(t) as int) =~= v@.subrange(a as int, e as int));
    slice_copy(v, a, e)
}

/// The package a requirement line names.
pub fn extract_pkg(spec: &str) -> (r: String)
    ensures
        r@ == pkg_name(spec@),
{
    let v = to_chars(spec);
    assert(v@.subrange(0, v@.len() as int) =~= v@);
    from_chars(&pkg_name_at(&v, 0, v.len()))
}

// ---------------------------------------------------------------------------
// requirements.txt
// ---------------------------------------------------------------------------

/// A trimmed requirement line that names a package: not empty, not a
/// comment, not an option such as `-e .`.
pub open spec fn requirement_line(l: Seq<char>) -> bool {
    l.len() > 0 && l[0] != '#' && l[0] != '-'
}

/// The packages the lines name, in order, empty names left out.
pub open spec fn requirement_pkgs(ls: Seq<Seq<char>>) -> Seq<Seq<char>>
    decreases ls.len(),
{
    if ls.len() == 0 {
        seq![]
    } else {
        let rest = requirement_pkgs(ls.drop_last());
        let t = trim(ls.last());
        if requirement_line(t) && pkg_name(t).len() > 0 {
            rest.push(pkg_name(t))
        } else {
            rest
        }
    }
}

/// Collect the package of each requirement line.
fn requirement_list(ls: &Vec<Vec<char>>) -> (r: Vec<String>)
    ensures
        sv(r@) == requirement_pkgs(vv(ls)),
{
    let mut out: Vec<String> = Vec::new();
    let mut i: usize = 0;
    while i < ls.len()
        invariant
            i <= ls@.len(),
            sv(out@) == requirement_pkgs(vv(ls).take(i as int)),
        decreases ls@.len() - i,
    {
        let l = &ls[i];
        let (a, b) = trim_idx(l, 0, l.len());
        assert(l@.subrange(0, l@.len() as int) =~= l@);
        assert(vv(ls).take(i + 1).drop_last() =~= vv(ls).take(i as int));
        assert(vv(ls).take(i + 1).last() == l@);
        let ghost t = l@.subrange(a as int, b as int);
        if a < b && l[a] != '#' && l[a] != '-' {
            let p = pkg_name_at(l, a, b);
            if p.len() > 0 {
                push_string(&mut out, from_chars(&p));
            }
        }
        i = i + 1;
    }
    assert(vv(ls).take(ls@.len() as int) =~= vv(ls));
    out
}

/// The packages of a `requirements.txt`, sorted, each once (such a file
/// names no project).
pub fn parse_requirements(content: &str) -> (r: (Option<String>, Vec<String>))
    ensures
        r.0 is None,
        texts_strict(sv(r.1@)),
        sv(r.1@).to_set() == requirement_pkgs(lines(content@)).to_set(),
{
    let ls = lines_chars(&to_chars(content));
    let pkgs = requirement_list(&ls);
    (None, sorted_unique(&pkgs))
}

// ---------------------------------------------------------------------------
// go.mod
// ---------------------------------------------------------------------------

/// What reading a `go.mod` has found so far: the module name, the required
/// modules in order, and whether a `require (` block is open.
pub type GoState = (Option<Seq<char>>, Seq<Seq<char>>, bool);

/// The text before the first space, if there is a space.
pub open spec fn before_space(s: Seq<char>) -> Option<Seq<char>> {
    let j = first_index_of(s, ' ');
    if j < s.len() {
        Some(s.take(j))
    } else {
        None
    }
}

/// One line of a `go.mod`: comments and blank lines are skipped; `module x`
/// names the module; inside `require ( .. )` each line requires the module
/// before its first space, as does a single `require m v` line.
pub open spec fn go_step(st: GoState, raw: Seq<char>) -> GoState {
    let line = trim(raw);
    if line.len() == 0 || starts_with(line, "//"@) {
        st
    } else if starts_with(line, "module "@) {
        (Some(trim(line.skip("module "@.len() as int))), st.1, st.2)
    } else if starts_with(line, "require ("@) {
        (st.0, st.1, true)
    } else if st.2 {
        if line == ")"@ {
            (st.0, st.1, false)
        } else {
            match before_space(line) {
                Some(p) => (st.0, st.1.push(p), st.2),
                None => st,
            }
        }
    } else if starts_with(line, "require "@) {
        match before_space(trim(line.skip("require "@.len() as int))) {
            Some(p) => (st.0, st.1.push(p), st.2),
            None => st,
        }
    } else {
        st
    }
}

/// The state after reading the lines in order.
pub open spec fn go_state(ls: Seq<Seq<char>>) -> GoState
    decreases ls.len(),
{
    if ls.len() == 0 {
        (None, seq![], false)
    } else {
        go_step(go_state(ls.drop_last()), ls.last())
    }
}

fn before_space_exec(v: &[char]) -> (r: Option<Vec<char>>)
    ensures
        match r {
            Some(p) => before_space(v@) == Some(p@),
            None => before_space(v@) is None,
        },
{
    assert(v@.subrange(0, v@.len() as int) =~= v@);
    let j = find_char(v, 0, v.len(), ' ');
    if j < v.len() {
        assert(v@.take(j as int) =~= v@.subrange(0, j as int));
        Some(slice_copy(v, 0, j))
    } else {
        None
    }
}

fn trimmed(v: &[char], lo: usize) -> (r: Vec<char>)
    requires
        lo <= v@.len(),
    ensures
        r@ == trim(v@.skip(lo as int)),
{
    let (a, b) = trim_idx(v, lo, v.len());
    assert(v@.subrange(lo as int, v@.len() as int) =~= v@.skip(lo as int));
    slice_copy(v, a, b)
}

/// One line of a `go.mod`, on the state held in exec values.
fn go_step_exec(name: Option<String>, deps: Vec<String>, in_req: bool, raw: &[char]) -> (r: (Option<String>, Vec<String>, bool))
    ensures
        (opt_view(r.0), sv(r.1@), r.2) == go_step((opt_view(name), sv(deps@), in_req), raw@),
{
    let line = trimmed(raw, 0);
    assert(raw@.skip(0) =~= raw@);
    proof {
        reveal_strlit("module ");
        reveal_strlit("require ");
    }
    if line.len() == 0 || starts_with_str(&line, "//") {
        (name, deps, in_req)
    } else if starts_with_str(&line, "module ") {
        (Some(from_chars(&trimmed(&line, 7))), deps, in_req)
    } else if starts_with_str(&line, "require (") {
        (name, deps, true)
    } else if in_req {
        if eq_str(&line, ")") {
            (name, deps, false)
        } else {
            match before_space_exec(&line) {
                Some(p) => {
                    let mut deps = deps;
                    push_string(&mut deps, from_chars(&p));
                    (name, deps, in_req)
                },
                None => (name, deps, in_req),
            }
        }
    } else if starts_with_str(&line, "require ") {
        match before_space_exec(&trimmed(&line, 8)) {
            Some(p) => {
                let mut deps = deps;
                push_string(&mut deps, from_chars(&p));
                (name, deps, in_req)
            },
            None => (name, deps, in_req),
        }
    } else {
        (name, deps, in_req)
    }
}

/// The module a `go.mod` declares and the modules it requires, sorted,
/// each once.
pub fn parse_go_mod(content: &str) -> (r: (Option<String>, Vec<String>))
    ensures
        opt_view(r.0) == go_state(lines(content@)).0,
        texts_strict(sv(r.1@)),
        sv(r.1@).to_set() == go_state(lines(content@)).1.to_set(),
{
    let ls = lines_chars(&to_chars(content));
    let mut name: Option<String> = None;
    let mut deps: Vec<String> = Vec::new();
    let mut in_req = false;
    let mut i: usize = 0;
    while i < ls.len()
        invariant
            i <= ls@.len(),
            (opt_view(name), sv(deps@), in_req) == go_state(vv(&ls).take(i as int)),
        decreases ls@.len() - i,
    {
        assert(vv(&ls).take(i + 1).drop_last() =~= vv(&ls).take(i as int));
        assert(vv(&ls).take(i + 1).last() == ls@[i as int]@);
        let (n2, d2, r2) = go_step_exec(name, deps, in_req, &ls[i]);
        name = n2;
        deps = d2;
        in_req = r2;
        i = i + 1;
    }
    assert(vv(&ls).take(ls@.len() as int) =~= vv(&ls));
    (name, sorted_unique(&deps))
}

// ---------------------------------------------------------------------------
// Gemfile and pom.xml
// ---------------------------------------------------------------------------

/// A `gem 'name'` line, at the start of any line.
pub open spec fn gem_pattern() -> Seq<char> {
    "(?m)^\\s*gem\\s+['\"]([^'\"]+)['\"]"@
}

/// The first capture group of each match that has one, in order.
pub open spec fn first_groups(all: Seq<Seq<Option<Seq<char>>>>) -> Seq<Seq<char>>
    decreases all.len(),
{
    if all.len() == 0 {
        seq![]
    } else {
        let rest = first_groups(all.drop_last());
        let g = all.last();
        if g.len() > 1 && g[1] is Some {
            rest.push(g[1]->0)
        } else {
            rest
        }
    }
}

/// Keep the first group of each match.
fn first_group_list(all: &Vec<Vec<Option<String>>>) -> (r: Vec<String>)
    ensures
        sv(r@) == first_groups(all@.map_values(|g: Vec<Option<String>>| groups_view(g@))),
{
    let ghost view = all@.map_values(|g: Vec<Option<String>>| groups_view(g@));
    let mut out: Vec<String> = Vec::new();
    let mut i: usize = 0;
    while i < all.len()
        invariant
            i <= all@.len(),
            view == all@.map_values(|g: Vec<Option<String>>| groups_view(g@)),
            sv(out@) == first_groups(view.take(i as int)),
        decreases all@.len() - i,
    {
        assert(view.take(i + 1).drop_last() =~= view.take(i as int));
        assert(view.take(i + 1).last() == groups_view(all@[i as int]@));
        let g = &all[i];
        if g.len() > 1 {
            match &g[1] {
                Some(x) => {
                    push_string(&mut out, x.clone());
                },
                None => {},
            }
        }
        i = i + 1;
    }
    assert(view.take(all@.len() as int) =~= view);
    out
}

/// The gems a `Gemfile` names, sorted, each once (such a file names no
/// project).
pub fn parse_gemfile(content: &str) -> (r: (Option<String>, Vec<String>))
    ensures
        r.0 is None,
        texts_strict(sv(r.1@)),
        sv(r.1@).to_set() == match regex_all_captures(gem_pattern(), content@) {
            Some(all) => first_groups(all).to_set(),
            None => Set::empty(),
        },
{
    match captures_all("(?m)^\\s*gem\\s+['\"]([^'\"]+)['\"]", content) {
        Some(all) => (None, sorted_unique(&first_group_list(&all))),
        None => {
            let empty: Vec<String> = Vec::new();
            let r = sorted_unique(&empty);
            assert(sv(empty@).to_set() =~= Set::empty());
            (None, r)
        },
    }
}

/// An `<artifactId>` element, its value in group 1.
pub open spec fn artifact_pattern() -> Seq<char> {
    "<artifactId>\\s*([^<]+?)\\s*</artifactId>"@
}

/// A `<dependency>` element.
pub open spec fn dependency_pattern() -> Seq<char> {
    "(?s)<dependency>.*?</dependency>"@
}

/// A `<parent>` element.
pub open spec fn parent_pattern() -> Seq<char> {
    "(?s)<parent>.*?</parent>"@
}

/// The value of the first `<artifactId>` in a text, trimmed.
pub open spec fn artifact_of(text: Seq<char>) -> Option<Seq<char>> {
    match regex_captures(artifact_pattern(), text) {
        Some(g) => if g.len() > 1 && g[1] is Some {
            Some(trim(g[1]->0))
        } else {
            None
        },
        None => None,
    }
}

/// The project a `pom.xml` names: the first `<artifactId>` once the
/// `<parent>` elements are taken out, so that the parent's is not taken.
pub open spec fn pom_name(content: Seq<char>) -> Option<Seq<char>> {
    match regex_replaced(parent_pattern(), content, ""@) {
        Some(stripped) => artifact_of(stripped),
        None => None,
    }
}

/// The artifact of each `<dependency>` element that names one, in order.
pub open spec fn block_artifacts(all: Seq<Seq<Option<Seq<char>>>>) -> Seq<Seq<char>>
    decreases all.len(),
{
    if all.len() == 0 {
        seq![]
    } else {
        let rest = block_artifacts(all.drop_last());
        let g = all.last();
        if g.len() > 0 && g[0] is Some && artifact_of(g[0]->0) is Some {
            rest.push(artifact_of(g[0]->0)->0)
        } else {
            rest
        }
    }
}

fn artifact_of_exec(text: &str) -> (r: Option<String>)
    ensures
        opt_view(r) == artifact_of(text@),
{
    match captures("<artifactId>\\s*([^<]+?)\\s*</artifactId>", text) {
        Some(g) => {
            if g.len() > 1 {
                match &g[1] {
                    Some(x) => {
                        let v = to_chars(x.as_str());
                        Some(from_chars(&trimmed(&v, 0)))
                    },
                    None => None,
                }
            } else {
                None
            }
        },
        None => None,
    }
}

/// The artifact of each dependency element.
fn block_artifact_list(all: &Vec<Vec<Option<String>>>) -> (r: Vec<String>)
    ensures
        sv(r@) == block_artifacts(all@.map_values(|g: Vec<Option<String>>| groups_view(g@))),
{
    let ghost view = all@.map_values(|g: Vec<Option<String>>| groups_view(g@));
    let mut out: Vec<String> = Vec::new();
    let mut i: usize = 0;
    while i < all.len()
        invariant
            i <= all@.len(),
            view == all@.map_values(|g: Vec<Option<String>>| groups_view(g@)),
            sv(out@) == block_artifacts(view.take(i as int)),
        decreases all@.len() - i,
    {
        assert(view.take(i + 1).drop_last() =~= view.take(i as int));
        assert(view.take(i + 1).last() == groups_view(all@[i as int]@));
        let g = &all[i];
        if g.len() > 0 {
            match &g[0] {
                Some(x) => {
                    match artifact_of_exec(x.as_str()) {
                        Some(a) => push_string(&mut out, a),
                        None => {},
                    }
                },
                None => {},
            }
        }
        i = i + 1;
    }
    assert(view.take(all@.len() as int) =~= view);
    out
}

/// The project a `pom.xml` names and its dependencies' artifacts, sorted,
/// each once.
pub fn parse_pom_xml(content: &str) -> (r: (Option<String>, Vec<String>))
    ensures
        opt_view(r.0) == pom_name(content@),
        texts_strict(sv(r.1@)),
        sv(r.1@).to_set() == match regex_all_captures(dependency_pattern(), content@) {
            Some(all) => block_artifacts(all).to_set(),
            None => Set::empty(),
        },
{
    let name = match replace_all("(?s)<parent>.*?</parent>", content, "") {
        Some(stripped) => artifact_of_exec(stripped.as_str()),
        None => None,
    };
    let found = match captures_all("(?s)<dependency>.*?</dependency>", content) {
        Some(all) => block_artifact_list(&all),
        None => Vec::new(),
    };
    let deps = sorted_unique(&found);
    proof {
        if regex_all_captures(dependency_pattern(), content@) is None {
            assert(sv(found@).to_set() =~= Set::empty());
        }
    }
    (name, deps)
}

// ---------------------------------------------------------------------------
// Decoded manifests
// ---------------------------------------------------------------------------

/// A `Cargo.toml` once decoded: the package name and the keys of its
/// `[dependencies]` table, sorted, each once.
pub fn cargo_manifest(name: Option<String>, dependency_keys: Vec<String>) -> (r: (Option<String>, Vec<String>))
    ensures
        opt_view(r.0) == opt_view(name),
        texts_strict(sv(r.1@)),
        sv(r.1@).to_set() == sv(dependency_keys@).to_set(),
{
    (name, sorted_unique(&dependency_keys))
}

/// A `package.json` once decoded: its name and the keys of its
/// `dependencies` and `devDependencies`, together sorted, each once.
pub fn package_json_manifest(name: Option<String>, dependencies: Vec<String>, dev_dependencies: Vec<String>) -> (r: (Option<String>, Vec<String>))
    ensures
        opt_view(r.0) == opt_view(name),
        texts_strict(sv(r.1@)),
        sv(r.1@).to_set() == sv(dependencies@).to_set().union(sv(dev_dependencies@).to_set()),
{
    let mut all = dependencies;
    let ghost a = sv(all@);
    let mut i: usize = 0;
    while i < dev_dependencies.len()
        invariant
            i <= dev_dependencies@.len(),
            sv(all@) == a + sv(dev_dependencies@).take(i as int),
        decreases dev_dependencies@.len() - i,
    {
        push_string(&mut all, dev_dependencies[i].clone());
        assert(sv(dev_dependencies@).take(i + 1) =~= sv(dev_dependencies@).take(i as int).push(dev_dependencies@[i as int]@));
        i = i + 1;
    }
    assert(sv(dev_dependencies@).take(dev_dependencies@.len() as int) =~= sv(dev_dependencies@));
    assert((a + sv(dev_dependencies@)).to_set() =~= a.to_set().union(sv(dev_dependencies@).to_set())) by {
        vstd::seq_lib::seq_to_set_distributes_over_add(a, sv(dev_dependencies@));
    }
    (name, sorted_unique(&all))
}

/// The packages the dependency specifications name, empty names left out.
pub open spec fn spec_pkgs(specs: Seq<Seq<char>>) -> Seq<Seq<char>>
    decreases specs.len(),
{
    if specs.len() == 0 {
        seq![]
    } else {
        let rest = spec_pkgs(specs.drop_last());
        let p = pkg_name(specs.last());
        if p.len() > 0 {
            rest.push(p)
        } else {
            rest
        }
    }
}

/// A `pyproject.toml` once decoded: the name is `[project].name`, else
/// `[tool.poetry].name`; the dependencies are the packages that the
/// `[project].dependencies` specifications name, sorted, each once.
pub fn pyproject_manifest(project_name: Option<String>, poetry_name: Option<String>, dependency_specs: Vec<String>) -> (r: (Option<String>, Vec<String>))
    ensures
        opt_view(r.0) == (if project_name is Some { opt_view(project_name) } else { opt_view(poetry_name) }),
        texts_strict(sv(r.1@)),
        sv(r.1@).to_set() == spec_pkgs(sv(dependency_specs@)).to_set(),
{
    let mut pkgs: Vec<String> = Vec::new();
    let mut i: usize = 0;
    while i < dependency_specs.len()
        invariant
            i <= dependency_specs@.len(),
            sv(pkgs@) == spec_pkgs(sv(dependency_specs@).take(i as int)),
        decreases dependency_specs@.len() - i,
    {
        assert(sv(dependency_specs@).take(i + 1).drop_last() =~= sv(dependency_specs@).take(i as int));
        let v = to_chars(dependency_specs[i].as_str());
        assert(v@.subrange(0, v@.len() as int) =~= v@);
        let p = pkg_name_at(&v, 0, v.len());
        if p.len() > 0 {
            push_string(&mut pkgs, from_chars(&p));
        }
        i = i + 1;
    }
    assert(sv(dependency_specs@).take(dependency_specs@.len() as int) =~= sv(dependency_specs@));
    let name = match project_name {
        Some(n) => Some(n),
        None => poetry_name,
    };
    (name, sorted_unique(&pkgs))
}

// ---------------------------------------------------------------------------
// The stack
// ---------------------------------------------------------------------------

/// Manifests are ordered by their paths.
impl Keyed for Manifest {
    open spec fn key_lt(&self, other: &Self) -> bool {
        path_lt(self.file@, other.file@)
    }

    fn lt(&self, other: &Self) -> (r: bool) {
        path_lt_exec(self.file.as_str(), other.file.as_str())
    }

    proof fn lemma_asym(a: &Self, b: &Self) {
        lemma_path_lt_asym(a.file@, b.file@);
    }

    proof fn lemma_neg_trans(a: &Self, b: &Self, c: &Self) {
        lemma_path_le_trans(a.file@, b.file@, c.file@);
    }
}

/// The language each manifest stands for, in order.
pub open spec fn languages_of(ms: Seq<Manifest>) -> Seq<Seq<char>> {
    ms.map_values(|m: Manifest| m.kind.language_text())
}

/// Put the manifests found together: the languages they stand for, sorted,
/// each once, and the manifests ordered by path.
pub fn detect_tech_stack(found: Vec<Manifest>) -> (r: TechStack)
    ensures
        texts_strict(sv(r.languages@)),
        sv(r.languages@).to_set() == languages_of(found@).to_set(),
        sorted_by_key(r.manifests@),
        r.manifests@.to_multiset() == found@.to_multiset(),
{
    let mut langs: Vec<String> = Vec::new();
    let mut i: usize = 0;
    while i < found.len()
        invariant
            i <= found@.len(),
            sv(langs@) == languages_of(found@).take(i as int),
        decreases found@.len() - i,
    {
        let lang = found[i].kind.language();
        push_string(&mut langs, from_chars(&to_chars(lang)));
        assert(languages_of(found@).take(i + 1) =~= languages_of(found@).take(i as int).push(found@[i as int].kind.language_text()));
        i = i + 1;
    }
    assert(languages_of(found@).take(found@.len() as int) =~= languages_of(found@));
    let languages = sorted_unique(&langs);
    let manifests = sort_by_key(found);
    TechStack { languages, manifests }
}

} // verus!
