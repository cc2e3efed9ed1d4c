use md_wiki::fragment::FragmentTree;
use md_wiki::link::resolver::Resolver;
use md_wiki::model::Node;
use md_wiki::notes::frontmatter::Frontmatter;
use md_wiki::notes::ingest::NoteData;

fn node(path: &str) -> Node {
    Node {
        output_path: path.to_string(),
        entry_dir: String::new(),
        title: "t".into(),
        note: NoteData {
            source_file: path.to_string(),
            frontmatter: Frontmatter::default(),
            headings: vec![],
            first_paragraph: None,
            body: String::new(),
        },
        fragments: FragmentTree { preface: String::new(), fragments: vec![], non_fragmented: true },
        related: vec![],
        backlinks: vec![],
    }
}

#[test]
fn resolves_by_basename() {
    let nodes = vec![node("notes/foo.md"), node("notes/docs/bar.md")];
    let r = Resolver::build(&nodes);
    assert_eq!(r.resolve("foo", "notes/other.md"), Some("notes/foo.md".to_string()));
}

#[test]
fn same_directory_wins_on_collision() {
    let nodes = vec![node("notes/a/foo.md"), node("notes/b/foo.md")];
    let r = Resolver::build(&nodes);
    assert_eq!(r.resolve("foo", "notes/a/bar.md"), Some("notes/a/foo.md".to_string()));
}

#[test]
fn shortest_path_then_alpha_wins() {
    let nodes = vec![node("notes/deep/deep/foo.md"), node("notes/foo.md")];
    let r = Resolver::build(&nodes);
    assert_eq!(r.resolve("foo", "notes/other/here.md"), Some("notes/foo.md".to_string()));
}

#[test]
fn returns_none_when_unknown() {
    let nodes = vec![node("notes/foo.md")];
    let r = Resolver::build(&nodes);
    assert!(r.resolve("bar", "notes/x.md").is_none());
}

#[test]
fn alias_and_title_win_over_basename() {
    let mut n1 = node("notes/one.md");
    n1.note.frontmatter.aliases = vec!["x".to_string()];
    let mut n3 = node("notes/three.md");
    n3.note.frontmatter.title = Some("y".to_string());
    let n2 = node("notes/x.md");
    let n4 = node("notes/sub/y.md");
    for nodes in [vec![n1.clone(), n2.clone(), n3.clone(), n4.clone()], vec![n4, n3, n2, n1]] {
        let r = Resolver::build(&nodes);
        for from in ["notes/x.md", "notes/sub/z.md", "other/a.md"] {
            assert_eq!(r.resolve("x", from), Some("notes/one.md".to_string()));
            assert_eq!(r.resolve("y", from), Some("notes/three.md".to_string()));
        }
    }
}
