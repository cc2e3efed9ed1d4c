use md_wiki::generator::render;
use md_wiki::types::{KeyFile, WikiNode};

fn node(summary: &str, key_files: Vec<KeyFile>, responsibilities: Vec<&str>, related: Vec<&str>, read_next: Vec<&str>) -> WikiNode {
    WikiNode {
        title: "Test".to_string(),
        output_path: "test.md".to_string(),
        summary: summary.to_string(),
        key_files,
        responsibilities: responsibilities.into_iter().map(String::from).collect(),
        related: related.into_iter().map(String::from).collect(),
        read_next: read_next.into_iter().map(String::from).collect(),
    }
}

#[test]
fn render_contains_all_sections() {
    let node = node(
        "A test node",
        vec![KeyFile {
            path: "src/main.rs".to_string(),
            description: "entry point".to_string(),
        }],
        vec!["handle requests"],
        vec!["other.md"],
        vec!["next.md"],
    );

    let md = render(&node);
    assert!(md.contains("# Test"));
    assert!(md.contains("## Summary"));
    assert!(md.contains("A test node"));
    assert!(md.contains("## Key files"));
    assert!(md.contains("`src/main.rs` — entry point"));
    assert!(md.contains("## Responsibilities"));
    assert!(md.contains("handle requests"));
    assert!(md.contains("## Related"));
    assert!(md.contains("other.md"));
    assert!(md.contains("## Read next"));
    assert!(md.contains("next.md"));
}

#[test]
fn empty_node_gets_placeholders() {
    let md = render(&node("", vec![], vec![], vec![], vec![]));
    assert_eq!(
        md,
        "# Test\n\n## Summary\n\nTODO\n\n## Key files\n\nTODO\n\n## Responsibilities\n\nTODO\n\n## Related\n\nNone\n\n## Read next\n\nNone\n"
    );
}

#[test]
fn full_node_text() {
    let md = render(&node(
        "S",
        vec![
            KeyFile { path: "a.rs".to_string(), description: String::new() },
            KeyFile { path: "b.rs".to_string(), description: "bee".to_string() },
        ],
        vec!["r1", "r2"],
        vec!["x.md"],
        vec!["y.md", "z.md"],
    ));
    assert_eq!(
        md,
        "# Test\n\n## Summary\n\nS\n\n## Key files\n\n- `a.rs`\n- `b.rs` — bee\n\n## Responsibilities\n\n- r1\n- r2\n\n## Related\n\n- [x.md](x.md)\n\n## Read next\n\n- [y.md](y.md)\n- [z.md](z.md)\n"
    );
}
