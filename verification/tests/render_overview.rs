use md_wiki::extract::entrypoint::EntryPoint;
use md_wiki::extract::tech_stack::{Manifest, ManifestKind, TechStack};
use md_wiki::extract::test_layout::TestLayout;
use md_wiki::render::overview::{commands_for, render_development, render_entry_points, render_tech_stack, render_tests};

fn stack() -> TechStack {
    TechStack {
        languages: vec!["Rust".to_string()],
        manifests: vec![
            Manifest {
                file: "Cargo.toml".to_string(),
                kind: ManifestKind::CargoToml,
                project_name: Some("app".to_string()),
                dependencies: vec!["regex".to_string(), "serde".to_string()],
            },
            Manifest {
                file: "web/package.json".to_string(),
                kind: ManifestKind::PackageJson,
                project_name: None,
                dependencies: vec![],
            },
        ],
    }
}

#[test]
fn tech_stack_page() {
    assert_eq!(
        render_tech_stack(&stack()),
        "# Tech stack\n\n## Languages\n\n- Rust\n\n## Manifests\n\n- `Cargo.toml` — app (Cargo.toml)\n    - dependencies: regex, serde\n- `web/package.json` (package.json)\n\n"
    );
    let empty = TechStack { languages: vec![], manifests: vec![] };
    assert_eq!(
        render_tech_stack(&empty),
        "# Tech stack\n\n## Languages\n\n_(none detected)_\n\n## Manifests\n\n_(none detected)_\n\n"
    );
}

#[test]
fn entry_points_page() {
    let entries = vec![EntryPoint { file: "src/main.rs".to_string(), language: "Rust", description: "binary entry" }];
    assert_eq!(render_entry_points(&entries), "# Entry points\n\n- `src/main.rs` — Rust (binary entry)\n\n");
    assert_eq!(render_entry_points(&[]), "# Entry points\n\n_(none detected)_\n\n");
}

#[test]
fn tests_page() {
    let layout = TestLayout { test_dirs: vec!["tests".to_string()], test_files: vec![] };
    assert_eq!(
        render_tests(&layout),
        "# Tests\n\n## Directories\n\n- `tests`\n\n## Files\n\n_(none detected)_\n\n"
    );
}

#[test]
fn development_page() {
    let page = render_development(&stack());
    assert!(page.starts_with("# Development\n\n"));
    assert!(page.contains("## `Cargo.toml` (Cargo.toml)\n\n- build: `cargo build`\n- test: `cargo test`\n- lint: `cargo clippy -- -D warnings`\n- format: `cargo fmt`\n\n"));
    assert!(page.ends_with("## `web/package.json` (package.json)\n\n- install: `npm install`\n- test: `npm test`\n\n"));
    let none = render_development(&TechStack { languages: vec![], manifests: vec![] });
    assert!(none.ends_with("\n\n_(no manifests detected)_\n"));
    assert_eq!(commands_for(ManifestKind::GoMod), vec![("build", "go build ./..."), ("test", "go test ./...")]);
}
