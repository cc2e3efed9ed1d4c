use md_wiki::generator::{apply_node_content, file_block, sibling_nodes};
use md_wiki::llm::{json_span, KeyFileContent, NodeContent};
use md_wiki::types::{KeyFile, WikiNode};

fn node(path: &str) -> WikiNode {
    WikiNode {
        title: "T".to_string(),
        output_path: path.to_string(),
        summary: "old".to_string(),
        key_files: vec![KeyFile { path: "a.rs".to_string(), description: "old file".to_string() }],
        responsibilities: vec!["old duty".to_string()],
        related: vec!["r.md".to_string()],
        read_next: vec!["n.md".to_string()],
    }
}

#[test]
fn json_span_cuts_from_first_open_to_last_close() {
    assert_eq!(json_span("Sure: {\"a\": {\"b\": 1}} done").as_deref(), Some("{\"a\": {\"b\": 1}}"));
    assert_eq!(json_span("{}").as_deref(), Some("{}"));
    assert_eq!(json_span("no json here"), None);
    assert_eq!(json_span("only { open"), None);
    assert_eq!(json_span("only } close"), None);
    assert_eq!(json_span("雪{x}雪").as_deref(), Some("{x}"));
}

#[test]
fn siblings_leave_out_the_node_itself() {
    let nodes = vec![node("a.md"), node("b.md"), node("a.md"), node("c.md")];
    assert_eq!(sibling_nodes(&nodes, "a.md"), "b.md\nc.md");
    assert_eq!(sibling_nodes(&nodes[..1], "a.md"), "");
}

#[test]
fn file_blocks_frame_each_file() {
    assert_eq!(file_block("src/main.rs", "fn main() {}"), "--- src/main.rs ---\nfn main() {}\n\n");
}

#[test]
fn model_answer_replaces_summary_files_and_duties_only() {
    let mut n = node("a.md");
    apply_node_content(
        &mut n,
        NodeContent {
            summary: "new".to_string(),
            key_files: vec![
                KeyFileContent { path: "src/lib.rs".to_string(), description: "library".to_string() },
                KeyFileContent { path: "src/main.rs".to_string(), description: "binary".to_string() },
            ],
            responsibilities: vec!["parse".to_string(), "render".to_string()],
        },
    );
    assert_eq!(n.summary, "new");
    assert_eq!(n.key_files.len(), 2);
    assert_eq!(n.key_files[1].path, "src/main.rs");
    assert_eq!(n.key_files[1].description, "binary");
    assert_eq!(n.responsibilities, vec!["parse".to_string(), "render".to_string()]);
    assert_eq!(n.title, "T");
    assert_eq!(n.related, vec!["r.md".to_string()]);
    assert_eq!(n.read_next, vec!["n.md".to_string()]);
}
