use md_wiki::notes::frontmatter::{split, Frontmatter};
use md_wiki::notes::headings::{extract, parse_atx};
use md_wiki::notes::ingest::{first_paragraph, note_from_content, should_ingest};

#[test]
fn splits_frontmatter_and_body() {
    let src = "---\ntitle: Hello\n---\nbody text";
    let (fm, body) = split(src);
    let fm = fm.unwrap();
    assert_eq!(fm.title.as_deref(), Some("Hello"));
    assert_eq!(body, "body text");
}

#[test]
fn parses_all_known_fields() {
    let src = r#"---
wiki: true
title: "Auth design"
summary: "認証"
tags: [auth, security]
related: [directories/src.md]
aliases:
  - auth
  - authn
---
body"#;
    let (fm, _body) = split(src);
    let fm = fm.unwrap();
    assert_eq!(fm.wiki, Some(true));
    assert_eq!(fm.title.as_deref(), Some("Auth design"));
    assert_eq!(fm.summary.as_deref(), Some("認証"));
    assert_eq!(fm.tags, vec!["auth", "security"]);
    assert_eq!(fm.related, vec!["directories/src.md"]);
    assert_eq!(fm.aliases, vec!["auth", "authn"]);
}

#[test]
fn returns_none_when_no_frontmatter() {
    let (fm, body) = split("no frontmatter here");
    assert!(fm.is_none());
    assert_eq!(body, "no frontmatter here");
}

#[test]
fn treats_malformed_as_no_frontmatter() {
    let (fm, _) = split("---\nkey: val\n\nbody");
    assert!(fm.is_none());
}

#[test]
fn parses_wiki_false() {
    let (fm, _) = split("---\nwiki: false\n---\n");
    assert_eq!(fm.unwrap().wiki, Some(false));
}

#[test]
fn parses_fragment_false_and_yes_no_booleans() {
    let (fm, body) = split("---\nfragment: false\nwiki: YES\n---\n# A\n");
    let fm = fm.unwrap();
    assert_eq!(fm.fragment, Some(false));
    assert_eq!(fm.wiki, Some(true));
    assert_eq!(body, "# A\n");
}

#[test]
fn closing_delimiter_must_stand_alone() {
    let (fm, body) = split("---\ntitle: x\n----\n---\nrest");
    assert_eq!(fm.unwrap().title.as_deref(), Some("x"));
    assert_eq!(body, "rest");
}

#[test]
fn extracts_atx_headings() {
    let src = r#"# H1
some text
## H2-a
### H3
## H2-b"#;
    let hs = extract(src);
    assert_eq!(hs.len(), 4);
    assert_eq!(hs[0].level, 1);
    assert_eq!(hs[0].text, "H1");
    assert_eq!(hs[1].level, 2);
    assert_eq!(hs[1].text, "H2-a");
    assert_eq!(hs[2].level, 3);
    assert_eq!(hs[3].text, "H2-b");
}

#[test]
fn skips_fenced_code_blocks() {
    let src = "```\n# not a heading\n```\n# real heading";
    let hs = extract(src);
    assert_eq!(hs.len(), 1);
    assert_eq!(hs[0].text, "real heading");
}

#[test]
fn rejects_too_many_hashes_or_no_space() {
    assert!(parse_atx("####### too many").is_none());
    assert!(parse_atx("#no-space").is_none());
    assert_eq!(parse_atx("## OK").unwrap().text, "OK");
}

#[test]
fn closing_hashes_are_removed_from_heading_text() {
    let h = parse_atx("  ### Title ###  ").unwrap();
    assert_eq!(h.level, 3);
    assert_eq!(h.text, "Title");
}

#[test]
fn wiki_false_excludes() {
    let fm = Frontmatter { wiki: Some(false), ..Default::default() };
    assert!(!should_ingest(&fm));
}

#[test]
fn wiki_true_includes() {
    let fm = Frontmatter { wiki: Some(true), ..Default::default() };
    assert!(should_ingest(&fm));
}

#[test]
fn no_wiki_flag_includes() {
    assert!(should_ingest(&Frontmatter::default()));
}

#[test]
fn first_paragraph_skips_heading_and_fence() {
    let body =
        "# Title\n\n```\ncode\n```\n\nThis is the first para.\nstill first.\n\nsecond para.";
    assert_eq!(
        first_paragraph(body).as_deref(),
        Some("This is the first para. still first.")
    );
}

#[test]
fn note_from_content_reads_frontmatter_headings_and_paragraph() {
    let n = note_from_content("a.md".to_string(), "---\ntitle: A\n---\n# A\n\nHello.\n").unwrap();
    assert_eq!(n.frontmatter.title.as_deref(), Some("A"));
    assert_eq!(n.body, "# A\n\nHello.\n");
    assert_eq!(n.headings.len(), 1);
    assert_eq!(n.first_paragraph.as_deref(), Some("Hello."));
    assert!(note_from_content("b.md".to_string(), "---\nwiki: false\n---\nx").is_none());
}
