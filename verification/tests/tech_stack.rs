use md_wiki::extract::tech_stack::{
    cargo_manifest, classify, detect_tech_stack, extract_pkg, package_json_manifest,
    parse_gemfile, parse_go_mod, parse_pom_xml, parse_requirements, pyproject_manifest,
    Manifest, ManifestKind,
};

fn strings(v: &[&str]) -> Vec<String> {
    v.iter().map(|s| s.to_string()).collect()
}

fn table_keys(v: Option<&toml::Value>) -> Vec<String> {
    match v.and_then(|t| t.as_table()) {
        Some(t) => t.keys().cloned().collect(),
        None => Vec::new(),
    }
}

#[test]
fn parses_cargo_toml() {
    let src = r#"
            [package]
            name = "sample"
            [dependencies]
            serde = "1"
            tokio = { version = "1", features = ["full"] }
        "#;
    let doc: toml::Value = toml::from_str(src).unwrap();
    let name = doc
        .get("package")
        .and_then(|p| p.get("name"))
        .and_then(|n| n.as_str())
        .map(String::from);
    let (name, deps) = cargo_manifest(name, table_keys(doc.get("dependencies")));
    assert_eq!(name.as_deref(), Some("sample"));
    assert_eq!(deps, vec!["serde", "tokio"]);
}

#[test]
fn parses_package_json() {
    let src = r#"{
            "name": "app",
            "dependencies": { "react": "18", "lodash": "4" },
            "devDependencies": { "jest": "29" }
        }"#;
    let doc: serde_json::Value = serde_json::from_str(src).unwrap();
    let keys = |k: &str| -> Vec<String> {
        doc.get(k)
            .and_then(|d| d.as_object())
            .map(|o| o.keys().cloned().collect())
            .unwrap_or_default()
    };
    let name = doc.get("name").and_then(|n| n.as_str()).map(String::from);
    let (name, deps) = package_json_manifest(name, keys("dependencies"), keys("devDependencies"));
    assert_eq!(name.as_deref(), Some("app"));
    assert_eq!(deps, vec!["jest", "lodash", "react"]);
}

#[test]
fn parses_pyproject() {
    let src = r#"
            [project]
            name = "pkg"
            dependencies = ["requests>=2", "numpy"]
        "#;
    let doc: toml::Value = toml::from_str(src).unwrap();
    let project = doc.get("project");
    let name = project
        .and_then(|p| p.get("name"))
        .and_then(|n| n.as_str())
        .map(String::from);
    let specs: Vec<String> = project
        .and_then(|p| p.get("dependencies"))
        .and_then(|d| d.as_array())
        .map(|a| a.iter().filter_map(|v| v.as_str()).map(String::from).collect())
        .unwrap_or_default();
    let (name, deps) = pyproject_manifest(name, None, specs);
    assert_eq!(name.as_deref(), Some("pkg"));
    assert_eq!(deps, vec!["numpy", "requests"]);
}

#[test]
fn parses_requirements() {
    let src = "# comment\nrequests==2.0\nflask>=1\n\n-e .\n";
    let (_, deps) = parse_requirements(src);
    assert_eq!(deps, vec!["flask", "requests"]);
}

#[test]
fn parses_go_mod() {
    let src = r#"module example.com/foo

go 1.21

require (
    github.com/a/b v1.0.0
    github.com/c/d v2.1.0
)

require github.com/e/f v0.1.0
"#;
    let (name, deps) = parse_go_mod(src);
    assert_eq!(name.as_deref(), Some("example.com/foo"));
    assert_eq!(
        deps,
        vec!["github.com/a/b", "github.com/c/d", "github.com/e/f"]
    );
}

#[test]
fn parses_pom_xml() {
    let src = r#"<project>
<artifactId>my-app</artifactId>
<dependencies>
<dependency><groupId>g</groupId><artifactId>lib-a</artifactId></dependency>
<dependency><groupId>g</groupId><artifactId>lib-b</artifactId></dependency>
</dependencies>
</project>"#;
    let (name, deps) = parse_pom_xml(src);
    assert_eq!(name.as_deref(), Some("my-app"));
    assert_eq!(deps, vec!["lib-a", "lib-b"]);
}

#[test]
fn pom_xml_project_name_ignores_parent() {
    let src = r#"<project>
<parent>
  <groupId>org</groupId>
  <artifactId>parent-project</artifactId>
  <version>1.0.0</version>
</parent>
<artifactId>child-app</artifactId>
<dependencies>
<dependency><artifactId>lib-x</artifactId></dependency>
</dependencies>
</project>"#;
    let (name, deps) = parse_pom_xml(src);
    assert_eq!(name.as_deref(), Some("child-app"));
    assert_eq!(deps, vec!["lib-x"]);
}

#[test]
fn parses_gemfile() {
    let src = "source 'https://rubygems.org'\ngem 'rails'\ngem \"puma\"\n# gem 'comment'\n";
    let (_, deps) = parse_gemfile(src);
    assert_eq!(deps, vec!["puma", "rails"]);
}

#[test]
fn requirement_names_stop_at_version_markers() {
    assert_eq!(extract_pkg("  numpy>=1.2"), "numpy");
    assert_eq!(extract_pkg("my_pkg.sub-x[extra]==1"), "my_pkg.sub-x");
    assert_eq!(extract_pkg(">=1"), "");
    let (name, deps) = parse_requirements("b\na\r\nb==2\n  # note\n--index-url x\n");
    assert!(name.is_none());
    assert_eq!(deps, vec!["a", "b"]);
}

#[test]
fn go_mod_skips_comments_and_dedups() {
    let src = "// header\nmodule   m/x  \nrequire z/z v1\nrequire (\n// c\na/a v1\nz/z v2\n)\nrequire b/b v3\n";
    let (name, deps) = parse_go_mod(src);
    assert_eq!(name.as_deref(), Some("m/x"));
    assert_eq!(deps, vec!["a/a", "b/b", "z/z"]);
    let (name, deps) = parse_go_mod("");
    assert!(name.is_none());
    assert!(deps.is_empty());
}

#[test]
fn pyproject_falls_back_to_poetry_name_and_drops_empty_names() {
    let (name, deps) = pyproject_manifest(
        None,
        Some("poet".to_string()),
        strings(&["b>=1", ">=2", "a", "b"]),
    );
    assert_eq!(name.as_deref(), Some("poet"));
    assert_eq!(deps, vec!["a", "b"]);
}

#[test]
fn classifies_manifests_by_file_name() {
    assert_eq!(classify("Cargo.toml"), Some(ManifestKind::CargoToml));
    assert_eq!(classify("web/package.json"), Some(ManifestKind::PackageJson));
    assert_eq!(classify("a/b/requirements.txt"), Some(ManifestKind::RequirementsTxt));
    assert_eq!(classify("go.mod"), Some(ManifestKind::GoMod));
    assert_eq!(classify("x/pom.xml"), Some(ManifestKind::PomXml));
    assert_eq!(classify("Gemfile"), Some(ManifestKind::Gemfile));
    assert_eq!(classify("py/pyproject.toml"), Some(ManifestKind::PyprojectToml));
    assert_eq!(classify("Cargo.lock"), None);
    assert_eq!(classify("cargo.toml"), None);
    assert_eq!(ManifestKind::RequirementsTxt.language(), "Python");
    assert_eq!(ManifestKind::PackageJson.label(), "package.json");
}

#[test]
fn tech_stack_sorts_manifests_and_languages() {
    let m = |file: &str, kind: ManifestKind| Manifest {
        file: file.to_string(),
        kind,
        project_name: None,
        dependencies: Vec::new(),
    };
    let stack = detect_tech_stack(vec![
        m("web/package.json", ManifestKind::PackageJson),
        m("Cargo.toml", ManifestKind::CargoToml),
        m("py/requirements.txt", ManifestKind::RequirementsTxt),
        m("py/pyproject.toml", ManifestKind::PyprojectToml),
    ]);
    assert_eq!(stack.languages, vec!["JavaScript/TypeScript", "Python", "Rust"]);
    let files: Vec<&str> = stack.manifests.iter().map(|m| m.file.as_str()).collect();
    assert_eq!(
        files,
        vec!["Cargo.toml", "py/pyproject.toml", "py/requirements.txt", "web/package.json"]
    );
}
