use md_wiki::analyzer::analyze;
use md_wiki::types::ScanResult;

fn scan(root: &str, files: &[&str]) -> ScanResult {
    ScanResult {
        root: root.to_string(),
        files: files.iter().map(|f| f.to_string()).collect(),
    }
}

#[test]
fn creates_index_and_directory_nodes() {
    let scan = scan(
        "/tmp/myproject",
        &["README.md", "src/main.rs", "src/lib.rs", "tests/test_main.rs"],
    );

    let nodes = analyze(&scan);

    assert!(nodes.iter().any(|n| n.output_path == "index.md"));
    assert!(nodes.iter().any(|n| n.output_path == "directories/src.md"));
    assert!(nodes.iter().any(|n| n.output_path == "directories/tests.md"));
    assert_eq!(nodes.len(), 3); // index + src + tests
}

#[test]
fn index_read_next_points_to_directories() {
    let scan = scan("/tmp/proj", &["src/main.rs"]);

    let nodes = analyze(&scan);
    let index = nodes.iter().find(|n| n.output_path == "index.md").unwrap();
    assert!(index.read_next.contains(&"directories/src.md".to_string()));
}

#[test]
fn directory_nodes_list_their_files_and_siblings() {
    let scan = scan(
        "/work/app/",
        &["b/x.rs", "README.md", "a/y.rs", "b/c/z.rs", "Cargo.toml"],
    );
    let nodes = analyze(&scan);
    assert_eq!(nodes[0].title, "app");
    let top: Vec<&str> = nodes[0].key_files.iter().map(|k| k.path.as_str()).collect();
    assert_eq!(top, vec!["README.md", "Cargo.toml"]);
    assert_eq!(nodes[0].read_next, vec!["directories/a.md", "directories/b.md"]);
    assert_eq!(nodes[1].title, "a");
    assert_eq!(nodes[1].related, vec!["directories/b.md"]);
    assert_eq!(nodes[2].title, "b");
    assert_eq!(nodes[2].output_path, "directories/b.md");
    let under_b: Vec<&str> = nodes[2].key_files.iter().map(|k| k.path.as_str()).collect();
    assert_eq!(under_b, vec!["b/x.rs", "b/c/z.rs"]);
    assert_eq!(nodes[2].related, vec!["directories/a.md"]);
    assert!(nodes[2].read_next.is_empty());
    assert!(nodes.iter().all(|n| n.summary.is_empty() && n.responsibilities.is_empty()));
}

#[test]
fn root_without_a_name_is_titled_project() {
    assert_eq!(analyze(&scan("/", &[]))[0].title, "Project");
    assert_eq!(analyze(&scan("a/..", &[]))[0].title, "Project");
    assert_eq!(analyze(&scan("./x/.", &[]))[0].title, "x");
    assert_eq!(analyze(&scan("", &["only.md"])).len(), 1);
}
