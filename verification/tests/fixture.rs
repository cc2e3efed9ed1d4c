use md_wiki::fixture::{fixture_next, fixture_start, FixtureKind, FixtureStage};

fn generate(kind: FixtureKind, min: usize) -> String {
    let mut st = fixture_start();
    let mut out = String::new();
    while let Some((text, next)) = fixture_next(kind, min, st) {
        out.push_str(&text);
        st = next;
    }
    assert_eq!(st.bytes, out.len());
    out
}

#[test]
fn code_block_fixture_is_closed_and_large_enough() {
    let doc = generate(FixtureKind::CodeBlock, 100);
    assert!(doc.starts_with("---\ntitle: Large Fixture\n---\n# Code\n\n```text\ncode-block-marker-0=value-0\n"));
    assert!(doc.ends_with("```\n"));
    assert!(doc.len() >= 100);
}

#[test]
fn heading_fixture_has_numbered_blocks() {
    let doc = generate(FixtureKind::H2H3, 10);
    assert_eq!(doc, "---\ntitle: Large Fixture\n---\n");
    let doc = generate(FixtureKind::H2H3, 40);
    assert_eq!(doc, "---\ntitle: Large Fixture\n---\n## Chapter 0\n\n### Topic 0\nmarker-h2-h3-0\n\n");
    let st = fixture_start();
    assert_eq!(st.stage, FixtureStage::Header);
}
