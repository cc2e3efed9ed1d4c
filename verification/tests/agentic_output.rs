use md_wiki::agentic_output::{agent_guide, large_entry_page, large_leaf_page, metadata_for_page, page_index};
use md_wiki::large_markdown::{plan_leaf_pages, scan_section_tree, PageKind};
use md_wiki::line_scan::{scan_lines, scan_physical_lines};

#[test]
fn agent_guide_has_metadata_and_routes() {
    let g = agent_guide();
    assert!(g.starts_with("---\nmd_wiki:\n  schema_version: 1\n  page_kind: agent_guide\n"));
    assert!(g.contains("  output_path: \"agent/index.md\"\n"));
    assert!(g.contains("\n---\n# Agent Guide\n\n- Page budget: 40,000 characters hard limit per Markdown file\n"));
    assert!(g.contains("## Indexes\n\n- [../fragments/_index.md](../fragments/_index.md)\n"));
    assert!(g.contains("- [terms/index.md](terms/index.md)\n\n## Query Routing\n"));
    assert!(g.ends_with("5. Expand only through Prev, Next, Children, Backlinks, or outgoing links as needed.\n"));
}

#[test]
fn large_input_pages_carry_text_and_navigation() {
    let mut text = String::new();
    for i in 0..4 {
        text.push_str(&format!("## Part {i}\n\n"));
        text.push_str(&"word ".repeat(8_000));
        text.push('\n');
    }
    let bytes = text.as_bytes();
    let rep = scan_lines("docs/big.md", bytes).unwrap();
    let lines = scan_physical_lines("docs/big.md", bytes).unwrap();
    let tree = scan_section_tree(&lines, rep.bytes);
    let plans = plan_leaf_pages("docs/big.md", &rep, &tree, 40_000);
    assert_eq!(plans[0].page_kind, PageKind::Entry);
    let leaves: Vec<_> = plans.iter().filter(|p| p.page_kind == PageKind::Leaf).cloned().collect();
    assert!(leaves.len() >= 2);
    let entry = large_entry_page(&plans[0], &leaves);
    assert!(entry.contains(&format!("# big.md\n\n- Leaf pages: `{}`\n\n## Fragments\n\n- [big:part-001](part-001.md)\n", leaves.len())));
    let leaf = large_leaf_page(&leaves[0], bytes).unwrap();
    assert!(leaf.starts_with("---\nmd_wiki:\n"));
    assert!(leaf.contains("  page_kind: leaf\n"));
    assert!(leaf.contains("\n---\n> Parent: [Parent](index.md) · Next: [Next](part-002.md)\n---\n\n## Part 0\n"));
    assert!(leaf.ends_with('\n'));
    let mut joined = String::new();
    for l in &leaves {
        let r = &l.byte_ranges[0];
        joined.push_str(&text[r.start as usize..r.end as usize]);
    }
    assert_eq!(joined, text);
}

#[test]
fn short_indexes_are_left_alone_long_ones_paged() {
    assert!(page_index("headings/index.md", "Headings", "# Headings\n\n- [a](a.md)\n").is_empty());
    let mut body = String::from("# Headings\n\n");
    for i in 0..3000 {
        body.push_str(&format!("- [Heading number {i:05}](x.md)\n"));
    }
    let files = page_index("headings/index.md", "Headings", &body);
    assert!(files.len() >= 3);
    assert_eq!(files[0].0, "headings/index.md");
    assert!(files[0].1.starts_with(&format!("# Headings\n\n- Paged index pages: `{}`\n- [Page 1](page-001.md) — ", files.len() - 1)));
    assert_eq!(files[1].0, "headings/page-001.md");
    assert!(files[1].1.starts_with("# Headings 1\n\n# Headings\n\n- [Heading number 00000](x.md)\n"));
    assert!(files[0].1.contains("`Heading number 00000` ... `"));
    let rejoined: String = files[1..].iter().map(|f| f.1.splitn(2, "\n\n").nth(1).unwrap().to_string()).collect();
    assert_eq!(rejoined, body);
}

#[test]
fn pages_without_metadata_get_it() {
    let existing = vec!["fragments/a/b.md".to_string(), "fragments/a/index.md".to_string()];
    let body = "> Parent: [A](index.md) · Next: [B](b.md)\n---\n\n## Intro\n\nsee [B](b.md) and [gone](gone.md)\n\n## Backlinks\n";
    let out = metadata_for_page("fragments/a/intro.md", body, &existing).unwrap();
    assert!(out.ends_with(body));
    assert!(out.contains("  page_kind: leaf\n"));
    assert!(out.contains("  title: \"Intro\"\n"));
    assert!(out.contains("  source: \"a.md\"\n"));
    assert!(out.contains("  heading_level: 2\n"));
    assert!(out.contains("  parent: \"index.md\"\n"));
    assert!(out.contains("  next: \"b.md\"\n"));
    assert!(out.contains("  outgoing_links:\n    - \"fragments/a/index.md\"\n    - \"fragments/a/b.md\"\n    - \"fragments/a/b.md\"\n"));
    assert!(out.contains("  backlinks_count: 1\n"));
    assert!(metadata_for_page("agent/index.md", "# x\n", &existing).is_none());
    assert!(metadata_for_page("x.md", "---\nmd_wiki:\n  page_kind: leaf\n---\n", &existing).is_none());
    let tag = metadata_for_page("tags/rust/async.md", "# async\n", &existing).unwrap();
    assert!(tag.contains("  tags:\n    - \"rust/async\"\n"));
    assert!(tag.contains("  page_kind: paged_index\n"));
}
