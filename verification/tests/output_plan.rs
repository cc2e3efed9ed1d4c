use md_wiki::output_plan::{
    insert_bytes, insert_text, plan_hashes, stable_hash, validate_manifest, validate_manifest_generated_paths,
    validate_manifest_schema, validate_relative_output_path, Manifest, ManifestInputKind, ManifestSchema,
    OutputPlan, plan_contains, stale_paths, clear_decision, manifest_records, overwrite_decision, removal_decision,
};

#[test]
fn stable_hash_is_fnv1a_hex() {
    assert_eq!(stable_hash(b""), "cbf29ce484222325");
    assert_eq!(stable_hash(b"a"), "af63dc4c8601ec8c");
    assert_eq!(stable_hash(b"foobar"), "85944171f73967e8");
}

#[test]
fn plan_insert_replaces_and_orders_by_path() {
    let mut plan = OutputPlan::new();
    insert_text(&mut plan, "b.md".to_string(), "B");
    insert_text(&mut plan, "a/z.md".to_string(), "Z");
    insert_text(&mut plan, "a-b.md".to_string(), "AB");
    insert_bytes(&mut plan, "b.md".to_string(), b"B2".to_vec());
    let keys: Vec<&str> = plan.entries.iter().map(|e| e.0.as_str()).collect();
    assert_eq!(keys, vec!["a/z.md", "a-b.md", "b.md"]);
    assert_eq!(plan.entries[2].1, b"B2".to_vec());
    let hashes = plan_hashes(&plan);
    let hkeys: Vec<&str> = hashes.iter().map(|e| e.0.as_str()).collect();
    assert_eq!(hkeys, vec!["a-b.md", "a/z.md", "b.md"]);
    assert_eq!(hashes[2].1, stable_hash(b"B2"));
}

#[test]
fn output_paths_must_be_plain_relative() {
    assert!(validate_relative_output_path("index.md").is_ok());
    assert!(validate_relative_output_path("a/./b.md").is_ok());
    assert_eq!(
        validate_relative_output_path("").unwrap_err(),
        "invalid generated output path in manifest: empty path"
    );
    assert_eq!(
        validate_relative_output_path("../x.md").unwrap_err(),
        "invalid generated output path in manifest: ../x.md"
    );
    assert!(validate_relative_output_path("/etc/x").is_err());
    assert!(validate_relative_output_path("./x").is_err());
    assert!(validate_relative_output_path("a/../b").is_err());
}

#[test]
fn manifest_checks() {
    let mut plan = OutputPlan::new();
    insert_text(&mut plan, "index.md".to_string(), "# I\n");
    let mut m = Manifest::new(ManifestInputKind::Directory, "/in", "/in", true, None, vec![], &plan, "0.1.0");
    assert_eq!(m.generated_file_hashes, vec![("index.md".to_string(), stable_hash(b"# I\n"))]);
    assert!(validate_manifest(&m).is_ok());
    m.generated_file_hashes.push(("../evil.md".to_string(), "0".to_string()));
    assert_eq!(
        validate_manifest_generated_paths(&m).unwrap_err(),
        "invalid generated output path in manifest: ../evil.md"
    );
    m.schema_version = 7;
    assert_eq!(validate_manifest(&m).unwrap_err(), "unsupported md-wiki manifest schema version: 7");
    let s = ManifestSchema { path: "s.yaml".to_string(), hash: "abc".to_string() };
    assert!(validate_manifest_schema(&s, "abc").is_ok());
    assert_eq!(
        validate_manifest_schema(&s, "abd").unwrap_err(),
        "schema pack changed since init/add: s.yaml; rerun add with --schema to update schema artifacts"
    );
}

#[test]
fn stale_paths_are_earlier_files_no_longer_planned() {
    let mut old_plan = OutputPlan::new();
    insert_text(&mut old_plan, "a.md".to_string(), "A");
    insert_text(&mut old_plan, "gone/x.md".to_string(), "X");
    insert_text(&mut old_plan, "b.md".to_string(), "B");
    let previous = Manifest::new(ManifestInputKind::Directory, "/in", "/in", true, None, vec![], &old_plan, "0.1.0");
    let mut plan = OutputPlan::new();
    insert_text(&mut plan, "b.md".to_string(), "B2");
    insert_text(&mut plan, "./a.md".to_string(), "A");
    assert!(plan_contains(&plan, "a.md"));
    assert!(plan_contains(&plan, "b.md"));
    assert!(!plan_contains(&plan, "gone/x.md"));
    assert_eq!(stale_paths(&plan, &previous).unwrap(), vec!["gone/x.md".to_string()]);
    let mut bad = previous.clone();
    bad.generated_file_hashes.push(("../up.md".to_string(), "0".to_string()));
    assert_eq!(
        stale_paths(&plan, &bad).unwrap_err(),
        "invalid generated output path in manifest: ../up.md"
    );
}

#[test]
fn only_an_earlier_output_is_cleared() {
    assert_eq!(clear_decision("out", false, false, false, false, false, false), Ok(false));
    assert_eq!(
        clear_decision("out", true, false, false, false, false, false),
        Err("output path exists but is not a directory: out".to_string())
    );
    assert_eq!(clear_decision("out", true, true, true, false, false, false), Ok(false));
    assert_eq!(clear_decision("out", true, true, false, false, true, false), Ok(true));
    assert_eq!(clear_decision("out", true, true, false, true, false, false), Ok(true));
    assert_eq!(
        clear_decision("docs", true, true, false, false, false, false),
        Err("refusing to clean docs: does not look like a md-wiki output directory (no manifest, index.md, or fragments/). Remove it manually or choose a different --out.".to_string())
    );
}

#[test]
fn an_update_writes_only_over_its_own_files() {
    let mut old_plan = OutputPlan::new();
    insert_text(&mut old_plan, "index.md".to_string(), "# I\n");
    let previous = Manifest::new(ManifestInputKind::Directory, "/in", "/in", true, None, vec![], &old_plan, "0.1.0");
    assert!(manifest_records(&previous, "index.md"));
    assert!(!manifest_records(&previous, "notes.md"));
    assert_eq!(overwrite_decision("out/new.md", "new.md", &previous, false, false, false), Ok(()));
    assert_eq!(overwrite_decision("out/index.md", "index.md", &previous, true, false, true), Ok(()));
    assert_eq!(
        overwrite_decision("out/notes.md", "notes.md", &previous, true, false, true),
        Err("refusing to overwrite unmanaged file in output: out/notes.md".to_string())
    );
    assert_eq!(
        overwrite_decision("out/index.md", "index.md", &previous, true, true, false),
        Err("refusing to follow symlink output path: out/index.md".to_string())
    );
    assert_eq!(
        overwrite_decision("out/index.md", "index.md", &previous, true, false, false),
        Err("refusing to overwrite non-file output path: out/index.md".to_string())
    );
}

#[test]
fn an_update_removes_stale_files_but_not_directories() {
    assert_eq!(removal_decision("out/x.md", false, false), Ok(false));
    assert_eq!(removal_decision("out/x.md", true, false), Ok(true));
    assert_eq!(
        removal_decision("out/x.md", true, true),
        Err("refusing to remove managed output path that is not a file: out/x.md".to_string())
    );
}
