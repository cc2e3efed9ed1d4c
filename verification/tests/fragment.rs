use md_wiki::fragment::{build_fragments, Fragment};
use md_wiki::notes::frontmatter::Frontmatter;
use md_wiki::notes::ingest::NoteData;

fn note_with(body: &str, fm: Frontmatter) -> NoteData {
    NoteData {
        source_file: "x.md".to_string(),
        frontmatter: fm,
        headings: Vec::new(),
        first_paragraph: None,
        body: body.to_string(),
    }
}

fn note(body: &str) -> NoteData {
    note_with(body, Frontmatter::default())
}

#[test]
fn splits_into_h2_fragments_with_preface() {
    let body = "# Title\n\nintro\n\n## A\n\na body\n\n## B\n\nb body\n";
    let tree = build_fragments(&note(body));
    assert!(!tree.non_fragmented);
    assert_eq!(tree.preface, "# Title\n\nintro\n");
    assert_eq!(tree.fragments.len(), 2);
    assert_eq!(tree.fragments[0].heading(), "A");
    assert_eq!(tree.fragments[0].slug(), "a");
    match &tree.fragments[0] {
        Fragment::H2 { body, .. } => assert!(body.starts_with("## A")),
        _ => panic!("expected H2"),
    }
}

#[test]
fn single_h2_still_splits() {
    let body = "# T\n\npre\n\n## Only\n\nhello\n";
    let tree = build_fragments(&note(body));
    assert!(!tree.non_fragmented);
    assert_eq!(tree.fragments.len(), 1);
    assert_eq!(tree.fragments[0].heading(), "Only");
    assert_eq!(tree.preface, "# T\n\npre\n");
}

#[test]
fn no_h2_is_non_fragmented() {
    let body = "# T\n\nbody\n\n### sub\n\ndeep\n";
    let tree = build_fragments(&note(body));
    assert!(tree.non_fragmented);
    assert!(tree.fragments.is_empty());
    assert_eq!(tree.preface, body);
}

#[test]
fn fragment_false_forces_non_fragmented() {
    let body = "## A\n\na\n\n## B\n\nb\n";
    let fm = Frontmatter { fragment: Some(false), ..Default::default() };
    let tree = build_fragments(&note_with(body, fm));
    assert!(tree.non_fragmented);
    assert!(tree.fragments.is_empty());
    assert_eq!(tree.preface, body);
}

#[test]
fn slug_collision_gets_suffixed() {
    let body = "## Same\n\nx\n\n## Same\n\ny\n";
    let tree = build_fragments(&note(body));
    assert_eq!(tree.fragments.len(), 2);
    assert_eq!(tree.fragments[0].slug(), "same");
    assert_eq!(tree.fragments[1].slug(), "same-1");
}

#[test]
fn headings_inside_fenced_code_are_ignored() {
    let body = "## Real\n\n```\n## fake in code\n```\n\nbody\n\n## Next\n\nn\n";
    let tree = build_fragments(&note(body));
    assert_eq!(tree.fragments.len(), 2);
    assert_eq!(tree.fragments[0].heading(), "Real");
    assert_eq!(tree.fragments[1].heading(), "Next");
}

#[test]
fn h3_resplit_triggers_when_hard_limit_exceeded_and_two_h3s() {
    let mut body = String::from("## Big\n\n");
    body.push_str("### alpha\n");
    for i in 0..150 {
        body.push_str(&format!("line{i}\n"));
    }
    body.push_str("### bravo\n");
    for i in 0..200 {
        body.push_str(&format!("more{i}\n"));
    }
    let tree = build_fragments(&note(&body));
    assert_eq!(tree.fragments.len(), 1);
    match &tree.fragments[0] {
        Fragment::Shell { heading, slug, preface, children } => {
            assert_eq!(heading, "Big");
            assert_eq!(slug, "big");
            assert_eq!(preface, "## Big\n");
            assert_eq!(children.len(), 2);
            assert_eq!(children[0].heading, "alpha");
            assert_eq!(children[0].slug, "alpha");
            assert!(children[0].body.starts_with("### alpha"));
            assert_eq!(children[1].heading, "bravo");
        }
        _ => panic!("expected Shell"),
    }
}

#[test]
fn h3_resplit_requires_two_or_more_h3s() {
    let mut body = String::from("## Big\n\n### only\n");
    for i in 0..400 {
        body.push_str(&format!("line{i}\n"));
    }
    let tree = build_fragments(&note(&body));
    assert_eq!(tree.fragments.len(), 1);
    assert!(matches!(&tree.fragments[0], Fragment::H2 { .. }));
}

fn body_with_n_lines_after_h2(n: usize) -> String {
    assert!(n >= 2);
    let mut s = String::from("## Big\n### a");
    for _ in 0..(n - 2) {
        s.push_str("\nx");
    }
    s.push_str("\n### b");
    s
}

#[test]
fn h3_resplit_respects_hard_threshold_boundary() {
    let body = body_with_n_lines_after_h2(300);
    let tree = build_fragments(&note(&body));
    assert_eq!(tree.fragments.len(), 1);
    assert!(
        matches!(&tree.fragments[0], Fragment::H2 { .. }),
        "300 行ちょうどでは殻化しないこと"
    );
    let body = body_with_n_lines_after_h2(301);
    let tree = build_fragments(&note(&body));
    assert!(matches!(&tree.fragments[0], Fragment::Shell { .. }));
}

#[test]
fn shell_child_slugs_are_scoped_per_shell() {
    let mut body = String::from("## One\n");
    body.push_str("### dup\n");
    for i in 0..200 {
        body.push_str(&format!("a{i}\n"));
    }
    body.push_str("### dup\n");
    for i in 0..200 {
        body.push_str(&format!("b{i}\n"));
    }
    body.push_str("## Two\n");
    body.push_str("### dup\n");
    for i in 0..200 {
        body.push_str(&format!("c{i}\n"));
    }
    body.push_str("### dup\n");
    for i in 0..200 {
        body.push_str(&format!("d{i}\n"));
    }
    let tree = build_fragments(&note(&body));
    assert_eq!(tree.fragments.len(), 2);
    match &tree.fragments[0] {
        Fragment::Shell { children, .. } => {
            assert_eq!(children[0].slug, "dup");
            assert_eq!(children[1].slug, "dup-1");
        }
        _ => panic!("expected Shell"),
    }
    match &tree.fragments[1] {
        Fragment::Shell { children, .. } => {
            assert_eq!(children[0].slug, "dup");
            assert_eq!(children[1].slug, "dup-1");
        }
        _ => panic!("expected Shell"),
    }
}

#[test]
fn shell_slug_and_leaf_slug_share_scope() {
    let mut body = String::from("## Same\n");
    body.push_str("a\n");
    body.push_str("## Same\n");
    body.push_str("### x\n");
    for i in 0..200 {
        body.push_str(&format!("{i}\n"));
    }
    body.push_str("### y\n");
    for i in 0..200 {
        body.push_str(&format!("y{i}\n"));
    }
    let tree = build_fragments(&note(&body));
    assert_eq!(tree.fragments.len(), 2);
    assert_eq!(tree.fragments[0].slug(), "same");
    assert_eq!(tree.fragments[1].slug(), "same-1");
}

#[test]
fn empty_heading_falls_back_to_section_slug() {
    let body = "## \n\nbody\n";
    let tree = build_fragments(&note(body));
    assert_eq!(tree.fragments.len(), 1);
    assert_eq!(tree.fragments[0].slug(), "section");
}

#[test]
fn third_collision_takes_next_free_number() {
    let body = "## A\n\n## A-1\n\n## A\n\n## A\n";
    let tree = build_fragments(&note(body));
    let slugs: Vec<&str> = tree.fragments.iter().map(|f| f.slug()).collect();
    assert_eq!(slugs, vec!["a", "a-1", "a-2", "a-3"]);
}

#[test]
fn preface_and_fragment_bodies_rejoin_to_the_body() {
    let body = "intro\n## A\na\n## B\nb";
    let tree = build_fragments(&note(body));
    let mut parts = vec![tree.preface.clone()];
    for f in &tree.fragments {
        if let Fragment::H2 { body, .. } = f {
            parts.push(body.clone());
        }
    }
    assert_eq!(parts.join("\n"), body);
}

fn reassemble(body: &str) -> String {
    let t = build_fragments(&note(body));
    if t.non_fragmented {
        return t.preface.clone();
    }
    let first_line = body.split('\n').position(|l| l.starts_with("## ")).unwrap();
    let mut parts: Vec<String> = Vec::new();
    if first_line != 0 {
        parts.push(t.preface.clone());
    }
    for f in &t.fragments {
        match f {
            Fragment::H2 { body, .. } => parts.push(body.clone()),
            Fragment::Shell { preface, children, .. } => {
                let mut p = vec![preface.clone()];
                p.extend(children.iter().map(|c| c.body.clone()));
                parts.push(p.join("\n"));
            }
        }
    }
    parts.join("\n")
}

#[test]
fn fragments_join_back_into_the_body() {
    for body in [
        "# T\n\nintro\n\n## A\n\na\n\n## B\n\nb\n",
        "## First\n\nx\n## Second",
        "\n## A\n",
        "no headings at all\n",
    ] {
        assert_eq!(reassemble(body), body);
    }
    let mut big = String::from("# Big\n\n## Part\n\nlead\n\n### One\n");
    for i in 0..200 {
        big.push_str(&format!("line {i}\n"));
    }
    big.push_str("### Two\n");
    for i in 0..200 {
        big.push_str(&format!("more {i}\n"));
    }
    big.push_str("## Tail\n\nend");
    let t = build_fragments(&note(&big));
    assert!(matches!(t.fragments[0], Fragment::Shell { .. }));
    assert_eq!(reassemble(&big), big);
}
