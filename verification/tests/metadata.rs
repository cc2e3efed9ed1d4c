use md_wiki::large_markdown::{ByteRange, LineRange, SplitReason};
use md_wiki::metadata_renderer::{render_frontmatter, split_reason_name, yaml_scalar, Metadata};

fn meta() -> Metadata {
    Metadata {
        page_kind: "leaf".into(),
        output_path: "fragments/a/part-001.md".to_string(),
        title: "Part 1".into(),
        source: Some("a.md".to_string()),
        section_path: vec!["A".into()],
        heading_level: Some(2),
        split_reason: Some(SplitReason::Heading),
        char_count: 12,
        byte_ranges: vec![ByteRange { start: 0, end: 12 }],
        line_ranges: vec![LineRange { start: 1, end: 2 }],
        parent: Some("index.md".to_string()),
        prev: None,
        next: None,
        children: Vec::new(),
        tags: Vec::new(),
        outgoing_links: Vec::new(),
        backlinks_count: 0,
    }
}

#[test]
fn renders_parseable_md_wiki_frontmatter_shape() {
    let body = render_frontmatter(&meta());
    assert!(body.starts_with("---\nmd_wiki:\n"));
    assert!(body.contains("  page_kind: leaf\n"));
    assert!(body.contains("  byte_ranges:\n"));
}

#[test]
fn renders_whole_block_exactly() {
    let body = render_frontmatter(&meta());
    let expected = "---\nmd_wiki:\n  schema_version: 1\n  page_kind: leaf\n  output_path: \"fragments/a/part-001.md\"\n  title: \"Part 1\"\n  source: \"a.md\"\n  section_path:\n    - \"A\"\n  heading_level: 2\n  split_reason: heading\n  char_count: 12\n  byte_ranges:\n    - [0, 12]\n  line_ranges:\n    - [1, 2]\n  parent: \"index.md\"\n  prev:\n  next:\n  children:\n  backlinks_count: 0\n---\n";
    assert_eq!(body, expected);
}

#[test]
fn yaml_scalar_escapes_quotes_and_backslashes() {
    assert_eq!(yaml_scalar("a\"b\\c"), "\"a\\\"b\\\\c\"");
    assert_eq!(split_reason_name(SplitReason::CodeFence), "code_fence");
}
