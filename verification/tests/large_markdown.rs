use md_wiki::large_markdown::{plan_leaf_pages, scan_section_tree, LineKindHint, PageKind, SplitReason};
use md_wiki::line_scan::{scan_lines, scan_physical_lines};

#[test]
fn scan_lines_records_offsets_and_kind_hints() {
    let text = "# Title\n\n```rust\n| h | v |\n- item\nplain\n";
    let report = scan_lines("t.md", text.as_bytes()).unwrap();

    assert_eq!(report.bytes, 40);
    assert_eq!(report.lines.len(), 6);
    assert_eq!(report.lines[0].byte_start, 0);
    assert_eq!(report.lines[0].byte_end, 8);
    assert_eq!(report.lines[0].line_number, 1);
    assert_eq!(report.lines[0].char_count, 8);
    assert_eq!(report.lines[0].kind_hint, LineKindHint::Heading);
    assert!(report.lines[0].safe_split_offsets.is_empty());
    assert_eq!(report.lines[1].kind_hint, LineKindHint::Blank);
    assert_eq!(report.lines[2].kind_hint, LineKindHint::Fence);
    assert_eq!(report.lines[3].kind_hint, LineKindHint::Table);
    assert_eq!(report.lines[4].kind_hint, LineKindHint::List);
    assert_eq!(report.lines[5].kind_hint, LineKindHint::Plain);
}

#[test]
fn scan_lines_handles_multimegabyte_input_with_bounded_buffer() {
    let mut text = String::new();
    for i in 0..120_000 {
        text.push_str(&format!("line {i:06}\n"));
    }
    let report = scan_lines("big.md", text.as_bytes()).unwrap();

    assert!(report.bytes > 1024 * 1024);
    assert_eq!(report.lines.len(), 120_000);
    assert!(report.max_buffered_bytes < 128 * 1024);
}

#[test]
fn buffer_peak_is_one_window_and_the_unfinished_line() {
    assert_eq!(scan_lines("t.md", b"ab\ncd").unwrap().max_buffered_bytes, 7);
    let one_line = "a".repeat(100_000);
    assert_eq!(scan_lines("t.md", one_line.as_bytes()).unwrap().max_buffered_bytes, 65_536 + 8_192);
}

#[test]
fn scan_lines_rejects_null_bytes() {
    let err = scan_lines("t.md", b"ok\nbad\0line\n").unwrap_err();
    assert!(err.contains("NULL byte"));
}

#[test]
fn scan_section_tree_builds_nested_heading_relationships() {
    let text = "# Root\n\n## First\n\n### Deep\n\n## Second\n\n```md\n# Ignored\n```\n";
    let lines = scan_physical_lines("t.md", text.as_bytes()).unwrap();
    let tree = scan_section_tree(&lines, text.len() as u64);

    assert_eq!(tree.heading_count, 4);
    assert_eq!(tree.sections.len(), 5);
    let root = &tree.sections[0];
    assert_eq!(root.children, vec!["h1-1-root"]);
    let h1 = tree.sections.iter().find(|s| s.id == "h1-1-root").unwrap();
    assert_eq!(h1.level, 1);
    assert_eq!(h1.children, vec!["h2-1-first", "h2-2-second"]);
    let h2 = tree.sections.iter().find(|s| s.id == "h2-1-first").unwrap();
    assert_eq!(h2.parent_id.as_deref(), Some("h1-1-root"));
    assert_eq!(h2.children, vec!["h3-1-deep"]);
    assert!(tree.sections.iter().all(|s| s.title != "Ignored"));
}

#[test]
fn plan_leaf_pages_splits_large_inputs_under_hard_limit() {
    let mut text = String::new();
    for i in 0..2_000 {
        text.push_str(&format!("paragraph marker {i:04} with deterministic content\n"));
    }
    let lines = scan_lines("large-no-heading.md", text.as_bytes()).unwrap();
    let physical = scan_physical_lines("large-no-heading.md", text.as_bytes()).unwrap();
    let tree = scan_section_tree(&physical, lines.bytes);
    let plans = plan_leaf_pages("large-no-heading.md", &lines, &tree, 40_000);

    let leaves: Vec<_> = plans.iter().filter(|plan| plan.page_kind == PageKind::Leaf).collect();
    assert!(leaves.len() > 1);
    assert!(leaves
        .iter()
        .all(|plan| plan.estimated_chars <= 30_000 && plan.split_reason == SplitReason::Paragraph));
    assert_eq!(leaves[0].parent.as_deref(), Some("index.md"));
    assert!(leaves[0].next.is_some());
    assert!(leaves.last().unwrap().prev.is_some());
}

#[test]
fn plan_leaf_pages_splits_single_huge_line_with_byte_windows() {
    let text = "a".repeat(95_000);
    let lines = scan_lines("large-single-line.md", text.as_bytes()).unwrap();
    let physical = scan_physical_lines("large-single-line.md", text.as_bytes()).unwrap();
    let tree = scan_section_tree(&physical, lines.bytes);
    let plans = plan_leaf_pages("large-single-line.md", &lines, &tree, 40_000);

    assert!(lines.max_buffered_bytes < 128 * 1024);
    let leaves: Vec<_> = plans.iter().filter(|plan| plan.page_kind == PageKind::Leaf).collect();
    assert!(leaves.len() >= 4);
    assert!(leaves
        .iter()
        .all(|plan| plan.estimated_chars <= 30_000 && plan.split_reason == SplitReason::ByteWindow));
    assert_eq!(leaves.first().unwrap().byte_ranges[0].start, 0);
    assert_eq!(leaves.last().unwrap().byte_ranges[0].end, lines.bytes);
    for pair in leaves.windows(2) {
        assert_eq!(pair[0].byte_ranges[0].end, pair[1].byte_ranges[0].start);
        assert_eq!(pair[0].line_ranges[0].start, 1);
        assert_eq!(pair[1].line_ranges[0].start, 1);
    }
}

#[test]
fn plan_leaf_pages_records_forced_split_reasons() {
    let fixtures = [
        ("large-single-heading.md", "# Single\nbody\n", SplitReason::LineWindow),
        ("large-code-block.md", "# Code\n```text\nbody\n```\n", SplitReason::CodeFence),
        ("large-table.md", "# Table\n| id | v |\n|---|---|\n| 1 | x |\n", SplitReason::Table),
    ];

    for (name, body, expected) in fixtures {
        let lines = scan_lines(name, body.as_bytes()).unwrap();
        let physical = scan_physical_lines(name, body.as_bytes()).unwrap();
        let tree = scan_section_tree(&physical, lines.bytes);
        let plans = plan_leaf_pages(name, &lines, &tree, 40_000);
        assert!(
            plans
                .iter()
                .any(|plan| plan.page_kind == PageKind::Leaf && plan.split_reason == expected),
            "{name} should create a {expected:?} leaf"
        );
    }
}

#[test]
fn planned_pages_have_distinct_paths_and_ids() {
    let text = "a".repeat(95_000);
    let lines = scan_lines("big.md", text.as_bytes()).unwrap();
    let physical = scan_physical_lines("big.md", text.as_bytes()).unwrap();
    let tree = scan_section_tree(&physical, lines.bytes);
    let plans = plan_leaf_pages("big.md", &lines, &tree, 40_000);
    assert_eq!(plans[0].output_path, "fragments/big/index.md");
    assert_eq!(plans[0].page_id, "big:entry");
    assert_eq!(plans[1].output_path, "fragments/big/part-001.md");
    assert_eq!(plans[1].page_id, "big:part-001");
    for i in 0..plans.len() {
        for j in i + 1..plans.len() {
            assert_ne!(plans[i].output_path, plans[j].output_path);
            assert_ne!(plans[i].page_id, plans[j].page_id);
        }
    }
}
