//! The overview pages of a project: its technology stack, its entry points
//! and its tests.
use vstd::prelude::*;
use crate::extract::entrypoint::EntryPoint;
use crate::extract::tech_stack::{Manifest, ManifestKind, TechStack};
use crate::extract::test_layout::TestLayout;
use crate::notes::frontmatter::opt_view;
use crate::strs::{from_chars, join, join_chars, push_all, sv, to_chars, vv};

verus! {

broadcast use vstd::seq_lib::group_seq_properties;

fn push_lit(t: &mut Vec<char>, s: &str)
    ensures
        final(t)@ == old(t)@ + s@,
{
    push_all(t, &to_chars(s));
}

/// Each text as a list item, with a given prefix and suffix around it.
pub open spec fn items(pre: Seq<char>, xs: Seq<Seq<char>>, post: Seq<char>) -> Seq<char>
    decreases xs.len(),
{
    if xs.len() == 0 {
        seq![]
    } else {
        items(pre, xs.drop_last(), post) + pre + xs.last() + post
    }
}

/// A list, or `_(none detected)_` when it is empty.
pub open spec fn list_or_none(pre: Seq<char>, xs: Seq<Seq<char>>, post: Seq<char>) -> Seq<char> {
    if xs.len() == 0 {
        "_(none detected)_\n"@
    } else {
        items(pre, xs, post)
    }
}

fn push_items(t: &mut Vec<char>, pre: &str, xs: &Vec<String>, post: &str)
    ensures
        final(t)@ == old(t)@ + items(pre@, sv(xs@), post@),
{
    let mut i: usize = 0;
    while i < xs.len()
        invariant
            i <= xs@.len(),
            t@ == old(t)@ + items(pre@, sv(xs@).take(i as int), post@),
        decreases xs@.len() - i,
    {
        assert(sv(xs@).take(i + 1).drop_last() =~= sv(xs@).take(i as int));
        let ghost before = t@;
        push_lit(t, pre);
        push_all(t, &to_chars(xs[i].as_str()));
        push_lit(t, post);
        assert(t@ =~= before + pre@ + sv(xs@)[i as int] + post@);
        i = i + 1;
    }
    assert(sv(xs@).take(xs@.len() as int) =~= sv(xs@));
}

fn push_list_or_none(t: &mut Vec<char>, pre: &str, xs: &Vec<String>, post: &str)
    ensures
        final(t)@ == old(t)@ + list_or_none(pre@, sv(xs@), post@),
{
    if xs.len() == 0 {
        push_lit(t, "_(none detected)_\n");
    } else {
        push_items(t, pre, xs, post);
    }
}

// ---------------------------------------------------------------------------
// Tech stack
// ---------------------------------------------------------------------------

/// The line of a manifest and, when it names dependencies, the line
/// listing them.
pub open spec fn manifest_lines(m: Manifest) -> Seq<char> {
    let head = match opt_view(m.project_name) {
        Some(n) => "`"@ + m.file@ + "` — "@ + n + " ("@ + m.kind.label_text() + ")"@,
        None => "`"@ + m.file@ + "` ("@ + m.kind.label_text() + ")"@,
    };
    "- "@ + head + "\n"@ + if m.dependencies@.len() > 0 {
        "    - dependencies: "@ + join(sv(m.dependencies@), ", "@) + "\n"@
    } else {
        ""@
    }
}

pub open spec fn manifests_lines(ms: Seq<Manifest>) -> Seq<char>
    decreases ms.len(),
{
    if ms.len() == 0 {
        seq![]
    } else {
        manifests_lines(ms.drop_last()) + manifest_lines(ms.last())
    }
}

/// The text of the technology-stack page.
pub open spec fn tech_stack_text(s: TechStack) -> Seq<char> {
    "# Tech stack\n"@ + "\n"@ + "## Languages\n"@ + "\n"@ + list_or_none("- "@, sv(s.languages@), "\n"@) + "\n"@
        + "## Manifests\n"@ + "\n"@
        + (if s.manifests@.len() == 0 { "_(none detected)_\n"@ } else { manifests_lines(s.manifests@) }) + "\n"@
}

fn strings_chars(v: &Vec<String>) -> (r: Vec<Vec<char>>)
    ensures
        vv(&r) == sv(v@),
{
    let mut out: Vec<Vec<char>> = Vec::new();
    let mut i: usize = 0;
    while i < v.len()
        invariant
            i <= v@.len(),
            vv(&out) == sv(v@).take(i as int),
        decreases v@.len() - i,
    {
        let ghost before = vv(&out);
        out.push(to_chars(v[i].as_str()));
        assert(vv(&out) =~= before.push(v@[i as int]@));
        assert(sv(v@).take(i + 1) =~= sv(v@).take(i as int).push(v@[i as int]@));
        i = i + 1;
    }
    assert(sv(v@).take(v@.len() as int) =~= sv(v@));
    out
}

fn push_manifest(t: &mut Vec<char>, m: &Manifest)
    ensures
        final(t)@ == old(t)@ + manifest_lines(*m),
{
    push_lit(t, "- ");
    push_lit(t, "`");
    push_all(t, &to_chars(m.file.as_str()));
    match &m.project_name {
        Some(n) => {
            push_lit(t, "` — ");
            push_all(t, &to_chars(n.as_str()));
            push_lit(t, " (");
        },
        None => {
            push_lit(t, "` (");
        },
    }
    push_lit(t, m.kind.label());
    push_lit(t, ")");
    push_lit(t, "\n");
    if m.dependencies.len() > 0 {
        push_lit(t, "    - dependencies: ");
        push_all(t, &join_chars(&strings_chars(&m.dependencies), &to_chars(", ")));
        push_lit(t, "\n");
    } else {
        push_lit(t, "");
    }
    assert(t@ =~= old(t)@ + manifest_lines(*m));
}

/// The technology-stack page: the languages, then each manifest with the
/// project it names, its kind and its dependencies.
pub fn render_tech_stack(stack: &TechStack) -> (r: String)
    ensures
        r@ == tech_stack_text(*stack),
{
    let mut t = to_chars("# Tech stack\n");
    push_lit(&mut t, "\n");
    push_lit(&mut t, "## Languages\n");
    push_lit(&mut t, "\n");
    push_list_or_none(&mut t, "- ", &stack.languages, "\n");
    push_lit(&mut t, "\n");
    push_lit(&mut t, "## Manifests\n");
    push_lit(&mut t, "\n");
    let ghost head = t@;
    if stack.manifests.len() == 0 {
        push_lit(&mut t, "_(none detected)_\n");
    } else {
        let mut i: usize = 0;
        while i < stack.manifests.len()
            invariant
                i <= stack.manifests@.len(),
                t@ == head + manifests_lines(stack.manifests@.take(i as int)),
            decreases stack.manifests@.len() - i,
        {
            assert(stack.manifests@.take(i + 1).drop_last() =~= stack.manifests@.take(i as int));
            push_manifest(&mut t, &stack.manifests[i]);
            i = i + 1;
        }
        assert(stack.manifests@.take(stack.manifests@.len() as int) =~= stack.manifests@);
    }
    push_lit(&mut t, "\n");
    assert(t@ =~= tech_stack_text(*stack));
    from_chars(&t)
}

// ---------------------------------------------------------------------------
// Entry points and tests
// ---------------------------------------------------------------------------

pub open spec fn entry_line(e: EntryPoint) -> Seq<char> {
    "- `"@ + e.file@ + "` — "@ + e.language@ + " ("@ + e.description@ + ")\n"@
}

pub open spec fn entry_lines(es: Seq<EntryPoint>) -> Seq<char>
    decreases es.len(),
{
    if es.len() == 0 {
        seq![]
    } else {
        entry_lines(es.drop_last()) + entry_line(es.last())
    }
}

/// The text of the entry-points page.
pub open spec fn entry_points_text(es: Seq<EntryPoint>) -> Seq<char> {
    "# Entry points\n"@ + "\n"@ + (if es.len() == 0 { "_(none detected)_\n"@ } else { entry_lines(es) }) + "\n"@
}

/// The entry-points page: each entry point with its language and what it is.
pub fn render_entry_points(entries: &[EntryPoint]) -> (r: String)
    ensures
        r@ == entry_points_text(entries@),
{
    let mut t = to_chars("# Entry points\n");
    push_lit(&mut t, "\n");
    let ghost head = t@;
    if entries.len() == 0 {
        push_lit(&mut t, "_(none detected)_\n");
    } else {
        let mut i: usize = 0;
        while i < entries.len()
            invariant
                i <= entries@.len(),
                t@ == head + entry_lines(entries@.take(i as int)),
            decreases entries@.len() - i,
        {
            assert(entries@.take(i + 1).drop_last() =~= entries@.take(i as int));
            let e = &entries[i];
            let ghost before = t@;
            push_lit(&mut t, "- `");
            push_all(&mut t, &to_chars(e.file.as_str()));
            push_lit(&mut t, "` — ");
            push_lit(&mut t, e.language);
            push_lit(&mut t, " (");
            push_lit(&mut t, e.description);
            push_lit(&mut t, ")\n");
            assert(t@ =~= before + entry_line(*e));
            i = i + 1;
        }
        assert(entries@.take(entries@.len() as int) =~= entries@);
    }
    push_lit(&mut t, "\n");
    assert(t@ =~= entry_points_text(entries@));
    from_chars(&t)
}

/// The text of the tests page.
pub open spec fn tests_text(l: TestLayout) -> Seq<char> {
    "# Tests\n"@ + "\n"@ + "## Directories\n"@ + "\n"@ + list_or_none("- `"@, sv(l.test_dirs@), "`\n"@) + "\n"@
        + "## Files\n"@ + "\n"@ + list_or_none("- `"@, sv(l.test_files@), "`\n"@) + "\n"@
}

/// The tests page: the test directories, then the test files.
pub fn render_tests(layout: &TestLayout) -> (r: String)
    ensures
        r@ == tests_text(*layout),
{
    let mut t = to_chars("# Tests\n");
    push_lit(&mut t, "\n");
    push_lit(&mut t, "## Directories\n");
    push_lit(&mut t, "\n");
    push_list_or_none(&mut t, "- `", &layout.test_dirs, "`\n");
    push_lit(&mut t, "\n");
    push_lit(&mut t, "## Files\n");
    push_lit(&mut t, "\n");
    push_list_or_none(&mut t, "- `", &layout.test_files, "`\n");
    push_lit(&mut t, "\n");
    assert(t@ =~= tests_text(*layout));
    from_chars(&t)
}

// ---------------------------------------------------------------------------
// Development
// ---------------------------------------------------------------------------

/// The build and test commands a manifest of a kind suggests, by label.
pub open spec fn commands_of(kind: ManifestKind) -> Seq<(Seq<char>, Seq<char>)> {
    match kind {
        ManifestKind::CargoToml => seq![("build"@, "cargo build"@), ("test"@, "cargo test"@), ("lint"@, "cargo clippy -- -D warnings"@), ("format"@, "cargo fmt"@)],
        ManifestKind::PackageJson => seq![("install"@, "npm install"@), ("test"@, "npm test"@)],
        ManifestKind::PyprojectToml => seq![("install"@, "pip install -e ."@), ("test"@, "pytest"@)],
        ManifestKind::RequirementsTxt => seq![("install"@, "pip install -r requirements.txt"@), ("test"@, "pytest"@)],
        ManifestKind::GoMod => seq![("build"@, "go build ./..."@), ("test"@, "go test ./..."@)],
        ManifestKind::PomXml => seq![("build"@, "mvn package"@), ("test"@, "mvn test"@)],
        ManifestKind::Gemfile => seq![("install"@, "bundle install"@), ("test"@, "bundle exec rspec"@)],
    }
}

pub fn commands_for(kind: ManifestKind) -> (r: Vec<(&'static str, &'static str)>)
    ensures
        r@.map_values(|c: (&'static str, &'static str)| (c.0@, c.1@)) == commands_of(kind),
{
    let v: Vec<(&'static str, &'static str)> = match kind {
        ManifestKind::CargoToml => vec![("build", "cargo build"), ("test", "cargo test"), ("lint", "cargo clippy -- -D warnings"), ("format", "cargo fmt")],
        ManifestKind::PackageJson => vec![("install", "npm install"), ("test", "npm test")],
        ManifestKind::PyprojectToml => vec![("install", "pip install -e ."), ("test", "pytest")],
        ManifestKind::RequirementsTxt => vec![("install", "pip install -r requirements.txt"), ("test", "pytest")],
        ManifestKind::GoMod => vec![("build", "go build ./..."), ("test", "go test ./...")],
        ManifestKind::PomXml => vec![("build", "mvn package"), ("test", "mvn test")],
        ManifestKind::Gemfile => vec![("install", "bundle install"), ("test", "bundle exec rspec")],
    };
    assert(v@.map_values(|c: (&'static str, &'static str)| (c.0@, c.1@)) =~= commands_of(kind));
    v
}

pub open spec fn command_lines(cs: Seq<(Seq<char>, Seq<char>)>) -> Seq<char>
    decreases cs.len(),
{
    if cs.len() == 0 {
        seq![]
    } else {
        command_lines(cs.drop_last()) + "- "@ + cs.last().0 + ": `"@ + cs.last().1 + "`\n"@
    }
}

pub open spec fn development_section(m: Manifest) -> Seq<char> {
    "## `"@ + m.file@ + "` ("@ + m.kind.label_text() + ")\n"@ + "\n"@ + command_lines(commands_of(m.kind)) + "\n"@
}

pub open spec fn development_sections(ms: Seq<Manifest>) -> Seq<char>
    decreases ms.len(),
{
    if ms.len() == 0 {
        seq![]
    } else {
        development_sections(ms.drop_last()) + development_section(ms.last())
    }
}

/// The note at the head of the development page.
pub open spec fn development_note() -> Seq<char> {
    "以下はマニフェスト検出から推定したビルド/テストコマンド候補。実際の手順はプロジェクトの README やドキュメントも併せて確認すること。\n"@
}

/// The text of the development page.
pub open spec fn development_text(s: TechStack) -> Seq<char> {
    "# Development\n"@ + "\n"@ + development_note() + "\n"@
        + if s.manifests@.len() == 0 { "_(no manifests detected)_\n"@ } else { development_sections(s.manifests@) }
}

fn push_development_section(t: &mut Vec<char>, m: &Manifest)
    ensures
        final(t)@ == old(t)@ + development_section(*m),
{
    push_lit(t, "## `");
    push_all(t, &to_chars(m.file.as_str()));
    push_lit(t, "` (");
    push_lit(t, m.kind.label());
    push_lit(t, ")\n");
    push_lit(t, "\n");
    let ghost head = t@;
    let cmds = commands_for(m.kind);
    let ghost cv = cmds@.map_values(|c: (&'static str, &'static str)| (c.0@, c.1@));
    let mut i: usize = 0;
    while i < cmds.len()
        invariant
            i <= cmds@.len(),
            cv == cmds@.map_values(|c: (&'static str, &'static str)| (c.0@, c.1@)),
            t@ == head + command_lines(cv.take(i as int)),
        decreases cmds@.len() - i,
    {
        assert(cv.take(i + 1).drop_last() =~= cv.take(i as int));
        let ghost before = t@;
        push_lit(t, "- ");
        push_lit(t, cmds[i].0);
        push_lit(t, ": `");
        push_lit(t, cmds[i].1);
        push_lit(t, "`\n");
        assert(t@ =~= before + "- "@ + cv[i as int].0 + ": `"@ + cv[i as int].1 + "`\n"@);
        i = i + 1;
    }
    assert(cv.take(cmds@.len() as int) =~= cv);
    push_lit(t, "\n");
    assert(t@ =~= old(t)@ + development_section(*m));
}

/// The development page: for each manifest, the build and test commands
/// its kind suggests.
pub fn render_development(stack: &TechStack) -> (r: String)
    ensures
        r@ == development_text(*stack),
{
    let mut t = to_chars("# Development\n");
    push_lit(&mut t, "\n");
    push_lit(&mut t, "以下はマニフェスト検出から推定したビルド/テストコマンド候補。実際の手順はプロジェクトの README やドキュメントも併せて確認すること。\n");
    push_lit(&mut t, "\n");
    let ghost head = t@;
    if stack.manifests.len() == 0 {
        push_lit(&mut t, "_(no manifests detected)_\n");
    } else {
        let mut i: usize = 0;
        while i < stack.manifests.len()
            invariant
                i <= stack.manifests@.len(),
                t@ == head + development_sections(stack.manifests@.take(i as int)),
            decreases stack.manifests@.len() - i,
        {
            assert(stack.manifests@.take(i + 1).drop_last() =~= stack.manifests@.take(i as int));
            push_development_section(&mut t, &stack.manifests[i]);
            i = i + 1;
        }
        assert(stack.manifests@.take(stack.manifests@.len() as int) =~= stack.manifests@);
    }
    assert(t@ =~= development_text(*stack));
    from_chars(&t)
}

} // verus!
