use md_wiki::large_markdown::{ByteRange, LineRange, PageKind, PagePlan, SplitReason};
use md_wiki::page_registry::{page_kind_name, PageRegistry, RegistryError, PAGE_HARD_LIMIT_CHARS};

fn plan(path: &str, kind: PageKind) -> PagePlan {
    PagePlan {
        page_id: path.into(),
        page_kind: kind,
        output_path: path.to_string(),
        source_path: Some("source.md".to_string()),
        section_path: vec!["source.md".into()],
        byte_ranges: vec![ByteRange { start: 0, end: 1 }],
        line_ranges: vec![LineRange { start: 1, end: 1 }],
        split_reason: SplitReason::Heading,
        parent: None,
        prev: None,
        next: None,
        estimated_chars: 1,
    }
}

#[test]
fn rejects_duplicate_path_missing_parent_and_oversize() {
    assert!(PageRegistry::build(vec![
        plan("fragments/a/index.md", PageKind::Entry),
        plan("fragments/a/index.md", PageKind::Leaf),
    ])
    .is_err());

    let mut child = plan("fragments/a/part-001.md", PageKind::Leaf);
    child.parent = Some("index.md".to_string());
    assert!(PageRegistry::build(vec![child]).is_err());

    let mut huge = plan("fragments/a/index.md", PageKind::Entry);
    huge.estimated_chars = PAGE_HARD_LIMIT_CHARS + 1;
    assert!(PageRegistry::build(vec![huge]).is_err());
}

#[test]
fn validates_prev_next_relationships() {
    let entry = plan("fragments/a/index.md", PageKind::Entry);
    let mut first = plan("fragments/a/part-001.md", PageKind::Leaf);
    first.parent = Some("index.md".to_string());
    first.next = Some("part-002.md".to_string());
    let mut second = plan("fragments/a/part-002.md", PageKind::Leaf);
    second.parent = Some("index.md".to_string());
    second.prev = Some("part-001.md".to_string());
    assert!(PageRegistry::build(vec![entry, first, second]).is_ok());
}

#[test]
fn registered_pages_come_out_in_path_order() {
    let reg = PageRegistry::build(vec![
        plan("fragments/b/index.md", PageKind::Entry),
        plan("fragments/a/index.md", PageKind::Entry),
    ])
    .unwrap();
    let paths: Vec<_> = reg.pages().iter().map(|p| p.output_path.clone()).collect();
    assert_eq!(paths, vec!["fragments/a/index.md".to_string(), "fragments/b/index.md".to_string()]);
}

#[test]
fn each_error_has_its_kind() {
    let mut huge = plan("x.md", PageKind::Entry);
    huge.estimated_chars = PAGE_HARD_LIMIT_CHARS + 1;
    match PageRegistry::build(vec![huge]) {
        Err(RegistryError::Oversize { chars, path }) => {
            assert_eq!(chars, PAGE_HARD_LIMIT_CHARS + 1);
            assert_eq!(path, "x.md");
        }
        _ => panic!("expected oversize"),
    }
    let mut a = plan("d/a.md", PageKind::Leaf);
    a.next = Some("b.md".to_string());
    match PageRegistry::build(vec![a]) {
        Err(RegistryError::MissingNext { next, path }) => {
            assert_eq!(next, "b.md");
            assert_eq!(path, "d/a.md");
        }
        _ => panic!("expected missing next"),
    }
    let mut a = plan("d/a.md", PageKind::Leaf);
    a.next = Some("b.md".to_string());
    let b = plan("d/b.md", PageKind::Leaf);
    match PageRegistry::build(vec![a, b]) {
        Err(RegistryError::BrokenBack { path }) => assert_eq!(path, "d/a.md"),
        _ => panic!("expected broken back link"),
    }
    assert!(matches!(
        PageRegistry::build(vec![plan("a.md", PageKind::Entry), plan("./a.md", PageKind::Leaf)]),
        Err(RegistryError::DuplicatePath)
    ));
    assert_eq!(page_kind_name(PageKind::PagedIndex), "paged_index");
}

#[test]
fn registry_error_messages_name_the_pages() {
    let e = RegistryError::Oversize { chars: 40001, path: "a/b.md".to_string() };
    assert_eq!(e.message(), "page exceeds hard limit: 40001 chars at a/b.md");
    assert_eq!(RegistryError::DuplicatePath.message(), "duplicate output path registered");
    let e = RegistryError::MissingParent { parent: "../index.md".to_string(), path: "x/1.md".to_string() };
    assert_eq!(e.message(), "missing parent ../index.md for x/1.md");
    let e = RegistryError::MissingNext { next: "2.md".to_string(), path: "x/1.md".to_string() };
    assert_eq!(e.message(), "missing next 2.md for x/1.md");
    assert_eq!(RegistryError::BrokenBack { path: "x/1.md".to_string() }.message(), "next.prev does not point back to x/1.md");
}
