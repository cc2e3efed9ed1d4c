use md_wiki::large_markdown::PageKind;
use md_wiki::model::Node;
use md_wiki::nodes::build_nodes;
use md_wiki::notes::frontmatter::Frontmatter;
use md_wiki::notes::headings::extract;
use md_wiki::notes::ingest::NoteData;
use md_wiki::page_registry::PageRegistry;
use md_wiki::regular_page_plan::plan_regular_pages;

fn node(body: &str) -> Node {
    build_nodes(vec![NoteData {
        source_file: "n.md".to_string(),
        frontmatter: Frontmatter::default(),
        headings: extract(body),
        first_paragraph: None,
        body: body.into(),
    }])
    .remove(0)
}

#[test]
fn h2_note_has_entry_and_leaf_with_navigation() {
    let plans = plan_regular_pages(&[node("# N\n\n## A\n\na\n")]);
    assert_eq!(plans.len(), 2);
    assert_eq!(plans[0].page_kind, PageKind::Entry);
    assert_eq!(plans[1].page_kind, PageKind::Leaf);
    assert_eq!(plans[1].parent.as_deref(), Some("index.md"));
}

#[test]
fn multiple_h2_pages_have_prev_next() {
    let plans = plan_regular_pages(&[node("# N\n\n## A\n\na\n\n## B\n\nb\n")]);
    let leaves: Vec<_> = plans.iter().filter(|plan| plan.page_kind == PageKind::Leaf).collect();
    assert_eq!(leaves[0].next.as_deref(), Some("b.md"));
    assert_eq!(leaves[1].prev.as_deref(), Some("a.md"));
}

#[test]
fn regular_plans_register_cleanly() {
    let plans = plan_regular_pages(&[node("# N\n\n## A\n\na\n\n## B\n\nb\n")]);
    assert_eq!(plans[0].page_id, "fragments/n/index.md:entry");
    assert_eq!(plans[1].page_id, "fragments/n/index.md:a");
    assert_eq!(plans[1].output_path, "fragments/n/a.md");
    assert_eq!(plans[1].section_path, vec!["N".to_string(), "A".to_string()]);
    assert!(PageRegistry::build(plans).is_ok());
}
