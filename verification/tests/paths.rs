use md_wiki::nodes::build_nodes;
use md_wiki::notes::frontmatter::Frontmatter;
use md_wiki::notes::ingest::NoteData;
use md_wiki::paths::{
    entry_index_path, note_path, relative_link, resolve_conflict, sanitize_component,
    sanitize_path,
};

#[test]
fn sanitize_replaces_forbidden_chars() {
    assert_eq!(sanitize_component("foo:bar"), "foo_bar");
    assert_eq!(sanitize_component("a|b*c"), "a_b_c");
    assert_eq!(sanitize_component("ok-name"), "ok-name");
}

#[test]
fn note_path_for_root_file() {
    assert_eq!(note_path("README.md"), "notes/README.md");
}

#[test]
fn note_path_preserves_nested_structure() {
    assert_eq!(note_path("docs/a/b.md"), "notes/docs/a/b.md");
}

#[test]
fn note_path_sanitizes_forbidden_chars() {
    assert_eq!(note_path("docs/a:b.md"), "notes/docs/a_b.md");
}

#[test]
fn resolve_conflict_appends_suffix() {
    let mut used = Vec::new();
    let first = resolve_conflict("notes/a.md".to_string(), &mut used);
    let second = resolve_conflict("notes/a.md".to_string(), &mut used);
    let third = resolve_conflict("notes/a.md".to_string(), &mut used);
    assert_eq!(first, "notes/a.md");
    assert_eq!(second, "notes/a-1.md");
    assert_eq!(third, "notes/a-2.md");
}

#[test]
fn sanitize_path_drops_dot_components() {
    assert_eq!(sanitize_path("./a//b/../c?.md"), "a/b/c_.md");
}

#[test]
fn relative_link_computation() {
    assert_eq!(relative_link("notes/a/b.md", "notes/a/c.md"), "c.md");
    assert_eq!(
        relative_link("note-index/a/b.md", "code-nodes/src.md"),
        "../../code-nodes/src.md"
    );
    assert_eq!(relative_link("a/index.md", "a"), ".");
}

#[test]
fn entry_index_path_strips_extension() {
    assert_eq!(entry_index_path("README.md"), "fragments/README/index.md");
    assert_eq!(entry_index_path("docs/a.b.md"), "fragments/docs/a.b/index.md");
}

fn note(source: &str, title: Option<&str>) -> NoteData {
    NoteData {
        source_file: source.to_string(),
        frontmatter: Frontmatter { title: title.map(String::from), ..Default::default() },
        headings: vec![],
        first_paragraph: None,
        body: String::new(),
    }
}

#[test]
fn builds_node_per_note_with_entry_paths() {
    let nodes = build_nodes(vec![note("README.md", None), note("docs/a.md", Some("A"))]);
    assert_eq!(nodes.len(), 2);
    assert_eq!(nodes[0].output_path, "fragments/README/index.md");
    assert_eq!(nodes[0].entry_dir, "fragments/README");
    assert_eq!(nodes[1].output_path, "fragments/docs/a/index.md");
    assert_eq!(nodes[0].title, "README");
    assert_eq!(nodes[1].title, "A");
}

#[test]
fn colliding_entries_get_numbered_index_pages() {
    let nodes = build_nodes(vec![note("a.md", None), note("a.txt", None)]);
    assert_eq!(nodes[0].output_path, "fragments/a/index.md");
    assert_eq!(nodes[1].output_path, "fragments/a/index-1.md");
    assert_eq!(nodes[1].entry_dir, "fragments/a");
}
