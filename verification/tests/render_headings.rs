use md_wiki::fragment::build_fragments;
use md_wiki::model::Node;
use md_wiki::notes::frontmatter::Frontmatter;
use md_wiki::notes::headings;
use md_wiki::notes::ingest::NoteData;
use md_wiki::paths::{entry_dir_path, entry_index_path};
use md_wiki::render::headings::render_headings_index;

fn fragmented_node(src: &str, body: &str) -> Node {
    let note = NoteData {
        source_file: src.to_string(),
        frontmatter: Frontmatter::default(),
        headings: headings::extract(body),
        first_paragraph: None,
        body: body.to_string(),
    };
    let fragments = build_fragments(&note);
    Node {
        output_path: entry_index_path(src),
        entry_dir: entry_dir_path(src),
        title: "n".into(),
        note,
        fragments,
        related: vec![],
        backlinks: vec![],
    }
}

#[test]
fn h2_links_to_fragment_page() {
    let n = fragmented_node("foo.md", "# Foo\n\n## Intro\n\nhi\n");
    let body = render_headings_index(&[n]);
    assert!(body.contains("../fragments/foo/intro.md"));
    // the h1 links to the entry page
    assert!(body.contains("../fragments/foo/index.md"));
}

#[test]
fn non_fragmented_note_uses_anchor() {
    let mut n = fragmented_node("foo.md", "# Foo\n\n## Intro\n");
    // one h2 would be split; `fragment: false` keeps the note whole
    n.note.frontmatter.fragment = Some(false);
    n.fragments = build_fragments(&n.note);
    let body = render_headings_index(&[n]);
    assert!(body.contains("../fragments/foo/index.md#intro"));
}

#[test]
fn headings_index_full_text() {
    let n = fragmented_node("docs/a.md", "# Alpha\n\n## One\n\nx\n\n## Two\n\ny\n");
    let body = render_headings_index(&[n]);
    assert_eq!(
        body,
        "# Headings\n\n## [n](../fragments/docs/a/index.md)\n\n- [Alpha](../fragments/docs/a/index.md)\n  - [One](../fragments/docs/a/one.md)\n  - [Two](../fragments/docs/a/two.md)\n\n"
    );
}

#[test]
fn repeated_anchors_are_numbered() {
    let mut n = fragmented_node("w.md", "## Same\n\n## Same\n\n## Same\n");
    n.note.frontmatter.fragment = Some(false);
    n.fragments = build_fragments(&n.note);
    let body = render_headings_index(&[n]);
    assert!(body.contains("  - [Same](../fragments/w/index.md#same)\n"));
    assert!(body.contains("  - [Same](../fragments/w/index.md#same-1)\n"));
    assert!(body.contains("  - [Same](../fragments/w/index.md#same-2)\n"));
}

#[test]
fn no_headings_at_all() {
    let n = fragmented_node("plain.md", "just text\n");
    assert_eq!(render_headings_index(&[n]), "# Headings\n\n_(no headings)_\n");
    assert_eq!(render_headings_index(&[]), "# Headings\n\n_(no headings)_\n");
}
