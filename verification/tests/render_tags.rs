use md_wiki::fragment::FragmentTree;
use md_wiki::model::Node;
use md_wiki::notes::frontmatter::Frontmatter;
use md_wiki::notes::ingest::NoteData;
use md_wiki::render::tags::{build_tag_index, render_tag_index_page, render_tag_page, tag_page_path, tag_prefixes};
use md_wiki::render::text::{link_label, replace_str};

fn tagged(path: &str, title: &str, tags: &[&str]) -> Node {
    Node {
        output_path: path.to_string(),
        entry_dir: String::new(),
        title: title.to_string(),
        note: NoteData {
            source_file: "x.md".to_string(),
            frontmatter: Frontmatter { tags: tags.iter().map(|t| t.to_string()).collect(), ..Default::default() },
            headings: vec![],
            first_paragraph: None,
            body: String::new(),
        },
        fragments: FragmentTree { preface: String::new(), fragments: vec![], non_fragmented: true },
        related: vec![],
        backlinks: vec![],
    }
}

#[test]
fn tag_prefixes_flat_and_nested() {
    assert_eq!(tag_prefixes("auth"), vec!["auth"]);
    assert_eq!(tag_prefixes("auth/session"), vec!["auth", "auth/session"]);
    assert_eq!(tag_prefixes("a/b/c"), vec!["a", "a/b", "a/b/c"]);
}

#[test]
fn tag_page_path_flat_and_nested() {
    assert_eq!(tag_page_path("auth"), "tags/auth.md");
    assert_eq!(tag_page_path("auth/session"), "tags/auth/session.md");
}

#[test]
fn flattens_markdown_links_and_badges_for_link_labels() {
    let raw = "[React](https://react.dev/) &middot; [![GitHub license](badge.svg)](LICENSE)";
    assert_eq!(link_label(raw), "React &middot; GitHub license");
}

#[test]
fn escapes_literal_brackets() {
    assert_eq!(link_label("Array [T]"), "Array \\[T\\]");
}

#[test]
fn link_label_drops_tags_and_collapses_space() {
    assert_eq!(link_label("  a <b>bold</b>\n\tc [[x]] "), "a bold c \\[x\\]");
}

#[test]
fn replace_str_is_left_to_right() {
    assert_eq!(replace_str("aaa", "aa", "b"), "ba");
    assert_eq!(replace_str("x", "", "y"), "x");
}

#[test]
fn tag_index_collects_prefixes_sorted_and_unique() {
    let nodes = vec![
        tagged("fragments/b/index.md", "B", &["auth/session", " auth "]),
        tagged("fragments/a/index.md", "A", &["auth", "", "/"]),
    ];
    let idx = build_tag_index(&nodes);
    let keys: Vec<_> = idx.entries.iter().map(|(k, _)| k.clone()).collect();
    assert_eq!(keys, vec!["auth".to_string(), "auth/session".to_string()]);
    assert_eq!(idx.entries[0].1, vec!["fragments/a/index.md".to_string(), "fragments/b/index.md".to_string()]);
    assert_eq!(idx.entries[1].1, vec!["fragments/b/index.md".to_string()]);
    let page = render_tag_index_page(&idx);
    assert_eq!(page, "# Tags\n\n- [`auth`](auth.md) (2 件)\n- [`auth/session`](auth/session.md) (1 件)\n");
    let tp = render_tag_page("auth/session", &idx.entries[1].1, &nodes);
    assert_eq!(tp, "# Tag: `auth/session`\n\n- [B](../../fragments/b/index.md)\n");
}

#[test]
fn empty_tag_pages() {
    let idx = build_tag_index(&[]);
    assert_eq!(render_tag_index_page(&idx), "# Tags\n\n_(no tags)_\n");
    assert_eq!(render_tag_page("x", &[], &[]), "# Tag: `x`\n\n_(no entries)_\n");
    assert_eq!(render_tag_page("x", &["p.md".to_string()], &[]), "# Tag: `x`\n\n- [p.md](../p.md)\n");
}
