use md_wiki::fragment::build_fragments;
use md_wiki::link::LinkGraph;
use md_wiki::model::Node;
use md_wiki::notes::frontmatter::Frontmatter;
use md_wiki::notes::headings;
use md_wiki::notes::ingest::NoteData;
use md_wiki::paths::{entry_dir_path, entry_index_path};
use md_wiki::render::index::render_index;
use md_wiki::render::tags::build_tag_index;
use md_wiki::render::unresolved::render_unresolved;
use md_wiki::render::{build_core_wiki_plan, WikiOutput};

fn make_node(src: &str, body: &str, title: &str) -> Node {
    let note = NoteData {
        source_file: src.to_string(),
        frontmatter: Frontmatter::default(),
        headings: headings::extract(body),
        first_paragraph: None,
        body: body.to_string(),
    };
    let fragments = build_fragments(&note);
    Node {
        output_path: entry_index_path(src),
        entry_dir: entry_dir_path(src),
        title: title.to_string(),
        note,
        fragments,
        related: vec![],
        backlinks: vec![],
    }
}

fn body_of(entries: &[(String, Vec<u8>)], path: &str) -> String {
    let e = entries.iter().find(|e| e.0 == path).expect("page is planned");
    String::from_utf8(e.1.clone()).unwrap()
}

#[test]
fn core_plan_holds_every_page_once_in_path_order() {
    let nodes = vec![make_node("a.md", "# A\n\nHello\n", "A"), make_node("b.md", "# B\n", "B")];
    let graph = LinkGraph::new();
    let out = WikiOutput { project_title: "Demo", nodes: &nodes, unresolved: &[], graph: &graph };
    let plan = build_core_wiki_plan(&out);
    let paths: Vec<&str> = plan.entries.iter().map(|e| e.0.as_str()).collect();
    for want in [
        "fragments/a/index.md",
        "fragments/b/index.md",
        "tags/index.md",
        "headings/index.md",
        "links/index.md",
        "_unresolved.md",
        "index.md",
    ] {
        assert!(paths.contains(&want), "missing {want}");
    }
    let mut sorted = paths.clone();
    sorted.sort();
    sorted.dedup();
    assert_eq!(sorted.len(), paths.len());
    assert_eq!(body_of(&plan.entries, "_unresolved.md"), render_unresolved(&[]));
    let tag_index = build_tag_index(&nodes);
    assert_eq!(body_of(&plan.entries, "index.md"), render_index("Demo", &nodes, &[], &tag_index));
}
