use md_wiki::budget::enforce_budget;
use md_wiki::context_pack::{compact_line, pack_with_budget, sorted_unique};
use md_wiki::schema::{
    section_under_heading, CatalogPage, ContextRecipe, ContextSection, FieldDef, FieldEvidence, FieldSource, SchemaError,
    SchemaPack, SourceRange,
};

fn schema_with(section_fields: Vec<String>) -> SchemaPack {
    SchemaPack {
        id: "s".into(),
        version: 1,
        fields: vec![(
            "known".into(),
            FieldDef { label: None, sources: vec![FieldSource { frontmatter: Some("known".into()), heading: None }] },
        )],
        contexts: vec![(
            "task".into(),
            ContextRecipe {
                title: None,
                default_budget_chars: None,
                sections: vec![ContextSection { title: "Missing".into(), fields: section_fields, kind: None, required: false }],
            },
        )],
    }
}

#[test]
fn rejects_undefined_context_field() {
    let schema = schema_with(vec!["unknown".into()]);
    let err = schema.validate().unwrap_err().message();
    assert!(err.contains("undefined field"));
}

#[test]
fn validates_in_order() {
    assert!(schema_with(vec!["known".into()]).validate().is_ok());
    let mut s = schema_with(vec!["known".into()]);
    s.id = "  ".into();
    assert!(matches!(s.validate(), Err(SchemaError::MissingId)));
    let mut s = schema_with(vec!["known".into()]);
    s.version = 2;
    assert_eq!(s.validate().unwrap_err().message(), "unsupported schema version: 2");
    let mut s = schema_with(vec![]);
    assert_eq!(
        s.validate().unwrap_err().message(),
        "context `task` section `Missing` must define fields or kind: sources"
    );
    s.contexts[0].1.sections[0].kind = Some("sources".into());
    assert!(s.validate().is_ok());
    s.fields[0].1.sources[0].frontmatter = None;
    assert!(matches!(s.validate(), Err(SchemaError::SourceWithoutKey { .. })));
}

#[test]
fn extracts_heading_section_body() {
    let body = "# A\n\n## Setup\n\nalpha\n\n### Detail\n\nbeta\n\n## Next\n\nno";
    let (text, line_start, line_end) = section_under_heading(body, "Setup").unwrap();
    assert!(text.contains("alpha"));
    assert!(text.contains("### Detail"));
    assert_eq!(line_start, 5);
    assert_eq!(line_end, 9);
    assert!(section_under_heading(body, "Missing").is_none());
    assert_eq!(section_under_heading(body, "Next"), Some(("no".to_string(), 13, 13)));
}

#[test]
fn compact_line_collapses_and_cuts() {
    assert_eq!(compact_line("  a \n\t b  "), "a b");
    let long = "x".repeat(300);
    let c = compact_line(&long);
    assert_eq!(c.chars().count(), 220);
    assert!(c.ends_with("..."));
}

#[test]
fn sorted_unique_sorts_and_drops_repeats() {
    let v = vec!["b".to_string(), "a".to_string(), "b".to_string()];
    assert_eq!(sorted_unique(&v), vec!["a".to_string(), "b".to_string()]);
}

#[test]
fn enforce_budget_keeps_fitting_packs_and_cuts_others() {
    let pack = "---\nx\n---\n# T\n\n## A\n\n- e1\n- e2\n\n## Source Trail\n\n- s1\n- s2\n".to_string();
    assert_eq!(enforce_budget(pack.clone(), 1000, &[]), pack);
    for budget in [0usize, 5, 20, 40, 60] {
        let out = enforce_budget(pack.clone(), budget, &["A".to_string()]);
        assert!(out.chars().count() <= budget, "budget {budget}: {out:?}");
    }
    let out = enforce_budget(pack.clone(), 60, &[]);
    assert!(out.contains("## Source Trail"));
}

fn page(gp: &str, field: &str, text: &str) -> CatalogPage {
    CatalogPage {
        generated_path: gp.into(),
        source_path: "src.md".into(),
        source_range: SourceRange { line_start: 1, line_end: 9 },
        title: "t".into(),
        doc_type: "note".into(),
        entities: vec![],
        tags: vec![],
        headings: vec![],
        fields: vec![(
            field.into(),
            vec![FieldEvidence { text: text.into(), source_path: "src.md".into(), line_start: 3, line_end: 4 }],
        )],
        outgoing_links: vec![],
        backlinks: vec![],
    }
}

#[test]
fn pack_lists_evidence_missing_fields_and_trail() {
    let recipe = ContextRecipe {
        title: Some("Brief".into()),
        default_budget_chars: None,
        sections: vec![
            ContextSection { title: "Setup".into(), fields: vec!["setup".into()], kind: None, required: false },
            ContextSection { title: "Goal".into(), fields: vec!["goal".into()], kind: None, required: true },
            ContextSection { title: "Sources".into(), fields: vec![], kind: Some("sources".into()), required: false },
        ],
    };
    let pages = vec![page("p/a.md", "setup", "the   setup"), page("p/b.md", "other", "x")];
    let out = pack_with_budget("md_wiki_context: {}\n", "task", &recipe, &pages, &vec![], 10_000);
    let expected = "---\nmd_wiki_context: {}\n---\n# Brief\n\n## Setup\n\n- `p/a.md` lines 3-4: the setup\n\n## Missing Required Evidence\n\n- `goal` for section `Goal`\n\n## Source Trail\n\n- `p/a.md` from `src.md` lines 3-4 (setup)\n- `p/b.md` from `src.md` lines 1-9\n";
    assert_eq!(out, expected);
}

#[test]
fn cut_packs_keep_the_source_trail_from_44_chars_up() {
    let long = format!("---\nx\n---\n# A very long title {}\n\n## A\n\n- e1\n", "x".repeat(200));
    for budget in [44usize, 45, 60, 100, 150] {
        let out = enforce_budget(long.clone(), budget, &[]);
        assert!(out.chars().count() <= budget);
        assert!(out.contains("## Source Trail"), "budget {budget}: {out:?}");
    }
    assert!(!enforce_budget(long.clone(), 20, &[]).contains("## Source Trail"));
}
