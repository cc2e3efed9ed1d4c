use md_wiki::link::wikilink::{find_all, render_relative};

#[test]
fn parses_basic_wikilink() {
    let links = find_all("Hello [[Foo]] world");
    assert_eq!(links.len(), 1);
    assert_eq!(links[0].1.target, "Foo");
    assert!(links[0].1.heading.is_none());
    assert!(links[0].1.alias.is_none());
    assert!(!links[0].1.embed);
    assert_eq!(links[0].0, 6..13);
}

#[test]
fn parses_alias_and_heading() {
    let links = find_all("[[Foo#Section|display]]");
    assert_eq!(links[0].1.target, "Foo");
    assert_eq!(links[0].1.heading.as_deref(), Some("Section"));
    assert_eq!(links[0].1.alias.as_deref(), Some("display"));
}

#[test]
fn parses_embed() {
    let links = find_all("see ![[Pic]]");
    assert_eq!(links[0].1.target, "Pic");
    assert!(links[0].1.embed);
}

#[test]
fn skips_wikilinks_in_fenced_code_blocks() {
    let body = "real [[Yes]]\n```\n[[No]]\n```\nafter [[Also]]";
    let links = find_all(body);
    let targets: Vec<_> = links.iter().map(|(_, l)| l.target.clone()).collect();
    assert_eq!(targets, vec!["Yes", "Also"]);
}

#[test]
fn relative_path_computation() {
    assert_eq!(render_relative("notes/a/b.md", "notes/a/c.md"), "c.md");
    assert_eq!(render_relative("note-index/a/b.md", "code-nodes/src.md"), "../../code-nodes/src.md");
}

#[test]
fn byte_offsets_count_multibyte_text() {
    let links = find_all("あ[[X]]");
    assert_eq!(links[0].0, 3..8);
}
