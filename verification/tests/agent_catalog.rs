use md_wiki::agent_catalog::{
    by_source_catalog, catalog_row_of, catalog_rows, escape_table, metadata_value, page_catalog, paginate_catalog_rows,
    source_page_stem, unique_source_page_name, CatalogRow,
};
use md_wiki::term_index::term_index;

fn file(path: &str, body: &str) -> (String, String) {
    (path.to_string(), body.to_string())
}

const WORLD: &str = "---\nmd_wiki:\n  page_kind: entry\n  output_path: \"fragments/story/world/index.md\"\n  title: \"World\"\n  source: \"story/world.md\"\n  section_path:\n    - \"fragments\"\n    - \"story\"\n    - \"world\"\n  char_count: 8\n  parent:\n  prev:\n  next:\n  children:\n  backlinks_count: 0\n---\n# World\n";
const NATIONS: &str = "---\nmd_wiki:\n  page_kind: leaf\n  output_path: \"fragments/story/world/nations.md\"\n  title: \"Nations\"\n  source: \"story/world.md\"\n  section_path:\n    - \"fragments\"\n    - \"story\"\n    - \"world\"\n  char_count: 10\n  parent: \"index.md\"\n  prev:\n  next:\n  children:\n  backlinks_count: 0\n---\n## Nations\n";

#[test]
fn page_catalog_writes_by_source_lookup() {
    let files = vec![file("fragments/story/world/index.md", WORLD), file("fragments/story/world/nations.md", NATIONS)];
    let rows = catalog_rows(&files);
    let out = page_catalog(&rows);
    let get = |p: &str| out.iter().find(|(path, _)| path == p).map(|(_, b)| b.clone()).unwrap();
    let index = get("agent/pages/by-source/index.md");
    assert!(index.contains("- [story/world.md](story_world.md) — 2 pages"));
    let source = get("agent/pages/by-source/story_world.md");
    assert!(source.contains("# story/world.md"));
    assert!(source.contains("fragments/story/world/index.md"));
    assert!(source.contains("fragments/story/world/nations.md"));
    let catalog = get("agent/pages/index.md");
    assert!(catalog.starts_with("---\nmd_wiki:\n  schema_version: 1\n  page_kind: page_catalog\n"));
    assert!(catalog.contains("| [fragments/story/world/nations.md](../../fragments/story/world/nations.md) | `leaf` | Nations | story/world.md |"));
}

#[test]
fn catalog_rows_read_metadata_or_infer() {
    let row = catalog_row_of("fragments/story/world/index.md", WORLD);
    assert_eq!(row.kind, "entry");
    assert_eq!(row.title, "World");
    assert_eq!(row.source, "story/world.md");
    assert_eq!(row.section, "fragments > story > world > index.md");
    assert_eq!(row.parent, "");
    let plain = catalog_row_of("tags/x.md", "# Tag X\nbody");
    assert_eq!(plain.kind, "paged_index");
    assert_eq!(plain.title, "Tag X");
    let bare = catalog_row_of("notes/n.md", "no heading");
    assert_eq!(bare.kind, "leaf");
    assert_eq!(bare.title, "notes/n.md");
    assert_eq!(metadata_value("  title: \"A\"\n", "title"), Some("A".to_string()));
    assert_eq!(metadata_value("  title:   \n", "title"), None);
}

#[test]
fn page_catalog_manifest_describes_path_ranges() {
    let mut files = vec![file("index.md", "# Wiki\n")];
    for idx in 0..700 {
        files.push(file(
            &format!("fragments/source-{idx:03}/index.md"),
            &format!("# Source {idx}\n\nbody with enough catalog text {idx}\n"),
        ));
    }
    let rows = catalog_rows(&files);
    let out = page_catalog(&rows);
    let catalog = &out.iter().find(|(p, _)| p == "agent/pages/index.md").unwrap().1;
    assert!(catalog.contains("- [Page 1](page-001.md) — "));
    assert!(catalog.contains("`agent/pages/by-source/index.md` to `"));
    assert!(out.iter().any(|(p, _)| p == "agent/pages/page-002.md"));
}

fn row(path: &str, source: &str) -> CatalogRow {
    CatalogRow {
        path: path.into(),
        kind: "leaf".into(),
        title: "T".into(),
        source: source.into(),
        section: String::new(),
        chars: 1,
        parent: String::new(),
        prev: String::new(),
        next: String::new(),
    }
}

#[test]
fn by_source_pages_are_named_uniquely() {
    assert_eq!(source_page_stem("story/world.md"), "story_world");
    assert_eq!(source_page_stem("..md.md"), "source");
    assert_eq!(source_page_stem("a  b!.txt"), "a_b_txt");
    let mut used: Vec<Vec<char>> = Vec::new();
    assert_eq!(unique_source_page_name("a/b.md", &mut used), "a_b.md");
    assert_eq!(unique_source_page_name("a b.md", &mut used), "a_b-1.md");
    assert_eq!(unique_source_page_name("a?b.md", &mut used), "a_b-2.md");
    let (files, rows) = by_source_catalog(&[row("x.md", "z.md"), row("y.md", "a.md"), row("w.md", "")]);
    let paths: Vec<_> = files.iter().map(|(p, _)| p.clone()).collect();
    assert_eq!(
        paths,
        vec!["agent/pages/by-source/a.md", "agent/pages/by-source/z.md", "agent/pages/by-source/index.md"]
    );
    assert_eq!(rows.len(), 3);
    assert_eq!(escape_table("a|b\nc"), "a\\|b c");
}

#[test]
fn pagination_keeps_every_row() {
    let rows: Vec<_> = (0..500).map(|i| row(&format!("p/{i:04}-{}.md", "x".repeat(60)), "")).collect();
    let pages = paginate_catalog_rows(&rows);
    assert!(pages.len() > 1);
    let flat: Vec<_> = pages.iter().flatten().map(|r| r.path.clone()).collect();
    let orig: Vec<_> = rows.iter().map(|r| r.path.clone()).collect();
    assert_eq!(flat, orig);
}

#[test]
fn term_index_suppresses_generated_index_noise() {
    let files = vec![
        file("fragments/topic/index.md", "# Topic\n\n## Useful Term\n"),
        file("headings/index.md", "# Headings\n\n- [Page 1](page-001.md)\n"),
    ];
    let out = term_index(&files);
    let terms = &out[0].1;
    assert_eq!(out[0].0, "agent/terms/index.md");
    assert!(terms.contains("useful term"));
    assert!(!terms.contains("| page-001 |"));
    assert!(!terms.contains("| index |"));
    assert!(!terms.contains("| headings |"));
}

#[test]
fn term_index_lists_tags_titles_files_and_labels() {
    let files = vec![
        file("fragments/a/index.md", "---\nmd_wiki:\n  title: \"Alpha Doc\"\n  source: \"docs/alpha.md\"\n---\n# Alpha\n\n## Design\n\nSee [Beta Page](../b/index.md).\n"),
        file("tags/auth/session.md", "# Tag\n"),
        file("agent/terms/index.md", "# Old\n"),
    ];
    let out = term_index(&files);
    let terms = &out[0].1;
    assert!(terms.contains("| design | `heading` | [fragments/a/index.md](../../fragments/a/index.md) |"));
    assert!(terms.contains("| alpha doc | `title` |"));
    assert!(terms.contains("| alpha | `file` |"));
    assert!(terms.contains("| beta page | `link_label` |"));
    assert!(terms.contains("| auth/session | `tag` | [tags/auth/session.md](../../tags/auth/session.md) |"));
    assert!(!terms.contains("| old |"));
}

#[test]
fn listed_terms_are_lower_case_and_not_structural() {
    let files = vec![
        ("fragments/a/index.md".to_string(), "# Index\n\n## Fancy Term\n\n[Headings](x.md)\n".to_string()),
        ("headings/index.md".to_string(), "# Headings\n".to_string()),
    ];
    let out = md_wiki::term_index::term_index(&files);
    let index = &out[0].1;
    assert!(index.contains("| fancy term |"));
    assert!(!index.contains("| index |"));
    assert!(!index.contains("| headings |"));
}
