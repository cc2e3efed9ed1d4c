use md_wiki::extract::test_layout::{detect_test_layout, is_test_file, test_dir_ancestor};
use md_wiki::scan::ScannedFile;

fn sf(p: &str) -> ScannedFile {
    ScannedFile { relative_path: p.to_string(), size: 0 }
}

#[test]
fn detects_test_directories() {
    let scanned = vec![sf("tests/e2e.rs"), sf("src/foo/__tests__/bar.ts"), sf("src/main.rs")];
    let layout = detect_test_layout(&scanned);
    assert!(layout.test_dirs.contains(&"tests".to_string()));
    assert!(layout.test_dirs.contains(&"src/foo/__tests__".to_string()));
    assert!(layout.test_files.contains(&"tests/e2e.rs".to_string()));
    assert!(layout.test_files.contains(&"src/foo/__tests__/bar.ts".to_string()));
}

#[test]
fn detects_test_files_by_naming() {
    let scanned = vec![sf("foo_test.rs"), sf("foo.test.ts"), sf("test_bar.py"), sf("main.rs"), sf("lib.ts")];
    let layout = detect_test_layout(&scanned);
    assert_eq!(
        layout.test_files,
        vec!["foo.test.ts".to_string(), "foo_test.rs".to_string(), "test_bar.py".to_string()]
    );
}

#[test]
fn naming_rules_and_ancestor() {
    assert!(is_test_file("pkg/x_test.go"));
    assert!(!is_test_file("test_notes.txt"));
    assert_eq!(test_dir_ancestor("a/spec/b/c.rb"), Some("a/spec".to_string()));
    assert_eq!(test_dir_ancestor("a/b/c.rb"), None);
}
