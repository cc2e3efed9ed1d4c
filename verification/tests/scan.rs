use md_wiki::scan::{is_probably_text, select_scanned, should_prune, ScannedFile, PEEK_BYTES};

const MIB: u64 = 1024 * 1024;

fn file(p: &str, size: u64) -> ScannedFile {
    ScannedFile { relative_path: p.to_string(), size }
}

#[test]
fn prunes_excluded_names_and_hidden_directories() {
    assert!(!should_prune(0, true, false, Some(".git")));
    assert!(should_prune(1, true, false, Some(".git")));
    assert!(should_prune(2, false, false, Some(".git")));
    assert!(should_prune(1, true, false, Some("node_modules")));
    assert!(should_prune(1, true, false, Some("target")));
    assert!(should_prune(1, true, false, Some(".cache")));
    assert!(!should_prune(1, true, false, Some(".wiki")));
    assert!(!should_prune(1, false, false, Some(".hidden.md")));
    assert!(should_prune(1, true, true, Some("out")));
    assert!(!should_prune(1, false, true, Some("out.md")));
    assert!(!should_prune(1, true, false, None));
    assert!(!should_prune(1, true, false, Some("docs")));
}

#[test]
fn text_heads() {
    assert!(is_probably_text(b"# Title\n"));
    assert!(is_probably_text(b""));
    assert!(!is_probably_text(b"a\0b"));
    let snow = "雪".as_bytes();
    assert!(is_probably_text(&snow[..2]));
    assert!(!is_probably_text(&[0x61, 0xff, 0x62]));
    assert!(!is_probably_text(&[0x80]));
}

#[test]
fn keeps_text_files_of_any_size_in_path_order() {
    let walked = vec![
        (file("b.md", 10), Some(b"# B".to_vec())),
        (file("a/z.md", 10), Some(b"# Z".to_vec())),
        (file("big.md", MIB + 1), Some(b"# Big".to_vec())),
        (file("bin.dat", 3), Some(vec![0, 1, 2])),
        (file("gone.md", 3), None),
        (file("a.md", MIB), Some(b"# A".to_vec())),
    ];
    let kept = select_scanned(walked);
    let paths: Vec<&str> = kept.iter().map(|f| f.relative_path.as_str()).collect();
    assert_eq!(paths, vec!["a/z.md", "a.md", "b.md", "big.md"]);
}

#[test]
fn keeps_large_text_files_for_downstream_classification() {
    let head = vec![b'a'; PEEK_BYTES];
    let walked = vec![
        (file("big.txt", MIB + 1), Some(head)),
        (file("small.txt", 2), Some(b"ok".to_vec())),
    ];
    let files = select_scanned(walked);
    let paths: Vec<&str> = files.iter().map(|f| f.relative_path.as_str()).collect();
    assert!(paths.contains(&"small.txt"));
    assert!(paths.contains(&"big.txt"));
    let big = files.iter().find(|f| f.relative_path == "big.txt").unwrap();
    assert!(big.size > MIB);
}
