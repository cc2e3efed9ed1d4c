use md_wiki::extract::entrypoint::{classify, detect_entry_points};
use md_wiki::scan::ScannedFile;

fn sf(p: &str) -> ScannedFile {
    ScannedFile { relative_path: p.to_string(), size: 0 }
}

#[test]
fn detects_rust_main_and_lib() {
    let scanned = vec![sf("src/main.rs"), sf("src/lib.rs"), sf("src/foo.rs")];
    let eps = detect_entry_points(&scanned);
    let paths: Vec<_> = eps.iter().map(|e| e.file.clone()).collect();
    assert_eq!(paths, vec!["src/lib.rs".to_string(), "src/main.rs".to_string()]);
}

#[test]
fn detects_python_entries() {
    let scanned = vec![sf("main.py"), sf("app.py"), sf("lib/helper.py")];
    let eps = detect_entry_points(&scanned);
    let names: Vec<_> = eps
        .iter()
        .map(|e| e.file.rsplit('/').next().unwrap().to_string())
        .collect();
    assert!(names.contains(&"main.py".to_string()));
    assert!(names.contains(&"app.py".to_string()));
    assert!(!names.contains(&"helper.py".to_string()));
}

#[test]
fn detects_go_cmd_bins() {
    let scanned = vec![sf("cmd/server/main.go"), sf("main.go")];
    let eps = detect_entry_points(&scanned);
    assert_eq!(eps.len(), 2);
}

#[test]
fn detects_root_index_ts() {
    let scanned = vec![sf("index.ts"), sf("lib/index.ts")];
    let eps = detect_entry_points(&scanned);
    let paths: Vec<_> = eps.iter().map(|e| e.file.clone()).collect();
    assert_eq!(paths, vec!["index.ts".to_string()]);
}

#[test]
fn classify_gives_language_and_description() {
    let ep = classify("src/bin/tool.rs").unwrap();
    assert_eq!(ep.language, "Rust");
    assert_eq!(ep.description, "bin target");
    assert!(classify("src/foo.rs").is_none());
}

#[test]
fn duplicate_scans_are_reported_once() {
    let eps = detect_entry_points(&[sf("main.go"), sf("main.go")]);
    assert_eq!(eps.len(), 1);
}
