use md_wiki::fragment::build_fragments;
use md_wiki::model::Node;
use md_wiki::notes::frontmatter::Frontmatter;
use md_wiki::notes::headings;
use md_wiki::notes::ingest::NoteData;
use md_wiki::paths::{entry_dir_path, entry_index_path};
use md_wiki::render::site_index::{render_site_indexes, SiteIndexPage};

fn make_node(src: &str, body: &str, title: &str) -> Node {
    let note = NoteData {
        source_file: src.to_string(),
        frontmatter: Frontmatter::default(),
        headings: headings::extract(body),
        first_paragraph: None,
        body: body.to_string(),
    };
    let fragments = build_fragments(&note);
    Node {
        output_path: entry_index_path(src),
        entry_dir: entry_dir_path(src),
        title: title.to_string(),
        note,
        fragments,
        related: vec![],
        backlinks: vec![],
    }
}

fn find_page<'a>(pages: &'a [SiteIndexPage], rel: &str) -> Option<&'a SiteIndexPage> {
    pages.iter().find(|p| p.output_path == rel)
}

#[test]
fn empty_input_emits_fragments_index_only() {
    let pages = render_site_indexes(&[]);
    assert_eq!(pages.len(), 1);
    let root = &pages[0];
    assert_eq!(root.output_path, "fragments/_index.md");
    assert!(root.body.contains("# fragments"));
    assert!(root.body.contains("- Notes: 0 (recursive)"));
}

#[test]
fn flat_notes_listed_under_fragments() {
    let n1 = make_node("memo.md", "# Memo\n\nbody\n", "Memo");
    let n2 = make_node("todo.md", "# Todo\n\n## A\n\nx\n", "Todo");
    let pages = render_site_indexes(&[n1, n2]);
    let root = find_page(&pages, "fragments/_index.md").expect("fragments root");
    assert!(root.body.contains("- Notes: 2 (recursive)"));
    assert!(root.body.contains("- Fragments: 1 (recursive)"));
    assert!(root.body.contains("- Subdirectories: 0"));
    assert!(root.body.contains("- [Memo](memo/index.md)"));
    assert!(root.body.contains("- [Todo](todo/index.md)"));
}

#[test]
fn nested_tree_builds_section_chain() {
    let n = make_node("docs/auth/session.md", "# Session\n\nbody\n", "Session");
    let pages = render_site_indexes(&[n]);
    let root = find_page(&pages, "fragments/_index.md").expect("root");
    let docs = find_page(&pages, "fragments/docs/_index.md").expect("docs");
    let auth = find_page(&pages, "fragments/docs/auth/_index.md").expect("auth");

    assert!(root.body.contains("- [docs](docs/_index.md) — 1 ノート"));
    assert!(root.body.contains("- Subdirectories: 1"));
    assert!(!root.body.contains("## Notes"));

    assert!(docs.body.contains("- [auth](auth/_index.md) — 1 ノート"));
    assert!(auth.body.contains("- [Session](session/index.md)"));
    assert!(auth.body.contains("- Notes: 1 (recursive)"));
}

#[test]
fn note_and_subdirectory_coexist_at_same_level() {
    let n1 = make_node("root.md", "# Root\n\nx\n", "Root");
    let n2 = make_node("sub/child.md", "# Child\n\ny\n", "Child");
    let pages = render_site_indexes(&[n1, n2]);
    let root = find_page(&pages, "fragments/_index.md").expect("root");
    assert!(root.body.contains("- [Root](root/index.md)"));
    assert!(root.body.contains("- [sub](sub/_index.md) — 1 ノート"));
    assert!(root.body.contains("- Subdirectories: 1"));
    assert!(root.body.contains("- Notes: 2 (recursive)"));
}

#[test]
fn site_index_pages_in_path_order_with_full_text() {
    let n1 = make_node("b/x.md", "# X\n\n## One\n\na\n\n## Two\n\nb\n", "X");
    let n2 = make_node("a.md", "# A\n", "A");
    let pages = render_site_indexes(&[n1, n2]);
    let paths: Vec<&str> = pages.iter().map(|p| p.output_path.as_str()).collect();
    assert_eq!(paths, vec!["fragments/_index.md", "fragments/b/_index.md"]);
    assert_eq!(
        pages[0].body,
        "# fragments\n\n## Summary\n\n- Notes: 2 (recursive)\n- Fragments: 2 (recursive)\n- Subdirectories: 1\n\n## Subdirectories\n\n- [b](b/_index.md) — 1 ノート\n\n## Notes\n\n- [A](a/index.md)\n\n"
    );
    assert_eq!(
        pages[1].body,
        "# fragments/b\n\n## Summary\n\n- Notes: 1 (recursive)\n- Fragments: 2 (recursive)\n- Subdirectories: 0\n\n## Notes\n\n- [X](x/index.md)\n\n"
    );
}
