use md_wiki::fragment::build_fragments;
use md_wiki::link::resolver::UnresolvedLink;
use md_wiki::link::LinkGraph;
use md_wiki::model::Node;
use md_wiki::notes::frontmatter::Frontmatter;
use md_wiki::notes::headings;
use md_wiki::notes::ingest::NoteData;
use md_wiki::paths::{entry_dir_path, entry_index_path};
use md_wiki::render::index::render_index;
use md_wiki::render::links::render_links_index;
use md_wiki::render::tags::build_tag_index;
use md_wiki::render::unresolved::render_unresolved;

fn make_node(src: &str, body: &str, title: &str) -> Node {
    let note = NoteData {
        source_file: src.to_string(),
        frontmatter: Frontmatter::default(),
        headings: headings::extract(body),
        first_paragraph: None,
        body: body.to_string(),
    };
    let fragments = build_fragments(&note);
    Node {
        output_path: entry_index_path(src),
        entry_dir: entry_dir_path(src),
        title: title.to_string(),
        note,
        fragments,
        related: vec![],
        backlinks: vec![],
    }
}

fn link(source: &str, target: &str, heading: Option<&str>, alias: Option<&str>) -> UnresolvedLink {
    UnresolvedLink {
        source: source.to_string(),
        target: target.to_string(),
        heading: heading.map(String::from),
        alias: alias.map(String::from),
    }
}

#[test]
fn unresolved_groups_by_source_page() {
    let list = vec![
        link("fragments/b/index.md", "Nope", None, None),
        link("fragments/a/index.md", "X", Some("Sec"), Some("shown")),
        link("fragments/b/index.md", "Other", None, Some("al")),
    ];
    assert_eq!(
        render_unresolved(&list),
        "# Unresolved wikilinks\n\n## `fragments/a/index.md`\n\n- `[[X#Sec|shown]]` — 対象ノート内に見出しが見つからない\n\n## `fragments/b/index.md`\n\n- `[[Nope]]` — 対象ノートが見つからない\n- `[[Other|al]]` — 対象ノートが見つからない\n\n"
    );
}

#[test]
fn no_unresolved_links() {
    assert_eq!(
        render_unresolved(&[]),
        "# Unresolved wikilinks\n\n_(すべての wikilink が解決されました)_\n"
    );
}

#[test]
fn links_index_lists_forward_links_in_path_order() {
    let a = make_node("b.md", "# B\n", "Bee");
    let b = make_node("a.md", "# A\n", "A [x](y)");
    let mut g = LinkGraph::new();
    g.add_edge("fragments/a/index.md", "fragments/b/index.md");
    g.add_edge("fragments/a/index.md", "fragments/zz/index.md");
    let body = render_links_index(&[a, b], &g);
    assert_eq!(
        body,
        "# Links\n\n## [A x](../fragments/a/index.md)\n\n- [Bee](../fragments/b/index.md)\n- [fragments/zz/index.md](../fragments/zz/index.md)\n\n"
    );
    let empty = render_links_index(&[make_node("c.md", "# C\n", "C")], &LinkGraph::new());
    assert_eq!(empty, "# Links\n\n_(no links between pages)_\n");
}

#[test]
fn root_index_summary_and_previews() {
    let n1 = make_node("top.md", "# Top\n\n## One\n\nx\n", "Top");
    let n2 = make_node("docs/guide.md", "# Guide\n\n### Deep\n", "Guide");
    let nodes = vec![n1, n2];
    let tags = build_tag_index(&nodes);
    let unresolved = vec![link("fragments/top/index.md", "Gone", None, None)];
    let body = render_index("Proj", &nodes, &unresolved, &tags);
    assert!(body.starts_with("# Proj\n\n## Summary\n\n- Notes: 2\n- Fragments: 1\n- Tags: 0\n- Unresolved links: 1\n\n## Sections\n\n"));
    assert!(body.contains("## Contents Preview\n\n### Notes\n\n- Root notes — 1 notes, 1 fragments\n- [docs](fragments/docs/_index.md) — 1 notes, 0 fragments\n\n"));
    assert!(body.contains("### Headings Preview\n\n- Top\n- One\n- Guide\n\n"));
    assert!(body.ends_with("## Unresolved links\n\n未解決の wikilink が 1 件あります。詳細は [_unresolved.md](_unresolved.md)。\n\n"));
}

#[test]
fn root_index_caps_directory_preview() {
    let mut nodes = Vec::new();
    for i in 0..14 {
        nodes.push(make_node(&format!("d{i:02}/n.md"), "text\n", "N"));
    }
    let tags = build_tag_index(&nodes);
    let body = render_index("P", &nodes, &[], &tags);
    assert!(body.contains("- [d11](fragments/d11/_index.md) — 1 notes, 0 fragments\n- ... 2 more directories\n"));
    assert!(!body.contains("[d12]"));
    assert!(body.contains("### Headings Preview\n\n- _(no headings)_\n"));
    assert!(!body.contains("## Unresolved links"));
    let none = render_index("P", &[], &[], &build_tag_index(&[]));
    assert!(none.contains("### Notes\n\n- _(no notes)_\n\n"));
}
