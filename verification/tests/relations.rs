use md_wiki::fragment::build_fragments;
use md_wiki::link::LinkGraph;
use md_wiki::model::Node;
use md_wiki::notes::frontmatter::Frontmatter;
use md_wiki::notes::headings;
use md_wiki::notes::ingest::NoteData;
use md_wiki::paths::{entry_dir_path, entry_index_path};
use md_wiki::relations::compute_relations;
use md_wiki::render::tags::build_tag_index;

fn node(src: &str, tags: &[&str], related: &[&str]) -> Node {
    let body = "# T\n";
    let note = NoteData {
        source_file: src.to_string(),
        frontmatter: Frontmatter {
            tags: tags.iter().map(|t| t.to_string()).collect(),
            related: related.iter().map(|t| t.to_string()).collect(),
            ..Default::default()
        },
        headings: headings::extract(body),
        first_paragraph: None,
        body: body.to_string(),
    };
    let fragments = build_fragments(&note);
    Node {
        output_path: entry_index_path(src),
        entry_dir: entry_dir_path(src),
        title: "T".to_string(),
        note,
        fragments,
        related: vec![],
        backlinks: vec![],
    }
}

#[test]
fn related_by_stem_of_linked_page() {
    let mut nodes = vec![node("a.md", &[], &["b", "b"]), node("b.md", &[], &[])];
    let mut g = LinkGraph::new();
    g.add_edge("fragments/a/index.md", "notes/b.md");
    let tags = build_tag_index(&nodes);
    compute_relations(&mut nodes, &g, &tags);
    assert_eq!(nodes[0].related, vec!["notes/b.md"]);
}

#[test]
fn related_from_front_matter_then_shared_tags() {
    let mut nodes = vec![
        node("a.md", &["x", "y", "z"], &["b", "fragments/c/index.md", "a", "missing"]),
        node("b.md", &[], &[]),
        node("c.md", &["x", "y"], &[]),
        node("d.md", &["x", "y", "z"], &[]),
        node("e.md", &["x", "y"], &[]),
        node("f.md", &["y", "z"], &[]),
        node("g.md", &["x"], &[]),
    ];
    let mut g = LinkGraph::new();
    g.add_edge("fragments/a/index.md", "fragments/b/index.md");
    g.add_edge("fragments/b/index.md", "fragments/a/index.md");
    g.add_edge("fragments/c/index.md", "fragments/a/index.md");
    let tags = build_tag_index(&nodes);
    compute_relations(&mut nodes, &g, &tags);
    assert_eq!(
        nodes[0].related,
        // "b" names no page: the page a links to has the file stem "index"
        vec![
            "fragments/c/index.md",
            "fragments/d/index.md",
            "fragments/e/index.md",
            "fragments/f/index.md"
        ]
    );
    assert_eq!(
        nodes[0].backlinks,
        vec![(
            "fragments/a/index.md".to_string(),
            vec!["fragments/b/index.md".to_string(), "fragments/c/index.md".to_string()]
        )]
    );
    assert!(nodes[1].related.is_empty());
    assert_eq!(
        nodes[1].backlinks,
        vec![("fragments/b/index.md".to_string(), vec!["fragments/a/index.md".to_string()])]
    );
    assert!(nodes[3].backlinks.is_empty());
    // c shares x and y with a, d and e
    assert_eq!(
        nodes[2].related,
        vec!["fragments/a/index.md", "fragments/d/index.md", "fragments/e/index.md"]
    );
    assert!(nodes[6].related.is_empty());
}
