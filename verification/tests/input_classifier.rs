use md_wiki::input_classifier::{classify_file, classify_scanned, validate_utf8_markdown, InputKind};
use md_wiki::scan::ScannedFile;

fn scanned(path: &str, size: u64) -> ScannedFile {
    ScannedFile { relative_path: path.to_string(), size }
}

#[test]
fn classifies_markdown_by_size_and_guards() {
    let ok = validate_utf8_markdown(b"hello");
    assert!(ok.is_ok());
    assert_eq!(classify_file(&scanned("regular.md", 5), &ok).kind, InputKind::RegularMarkdown);
    assert_eq!(classify_file(&scanned("large.md", 1024 * 1024 + 1), &ok).kind, InputKind::LargeMarkdown);
    let txt = classify_file(&scanned("large.txt", 1024 * 1024 + 1), &ok);
    assert_eq!(txt.kind, InputKind::Skipped);
    assert_eq!(txt.reason.as_deref(), Some("not markdown"));
    let nul = validate_utf8_markdown(&[b'a', 0, b'b']);
    assert_eq!(nul, Err("contains NULL byte".to_string()));
    assert_eq!(classify_file(&scanned("null.md", 3), &nul).kind, InputKind::Skipped);
    let bad = validate_utf8_markdown(&[0xff]);
    assert!(bad.clone().unwrap_err().starts_with("invalid UTF-8: "));
    assert_eq!(classify_file(&scanned("bad.md", 1), &bad).kind, InputKind::Skipped);
}

#[test]
fn oversized_markdown_keeps_a_reason() {
    let c = classify_file(&scanned("huge.md", 200 * 1024 * 1024 + 1), &Ok(()));
    assert_eq!(c.kind, InputKind::LargeMarkdown);
    assert!(c.reason.unwrap().starts_with("exceeds managed threshold"));
    let all = classify_scanned(&[scanned("a.md", 1), scanned(".md", 1)], &[Ok(()), Ok(())]);
    assert_eq!(all[0].kind, InputKind::RegularMarkdown);
    assert_eq!(all[1].kind, InputKind::Skipped);
}
