use md_wiki::fragment::build_fragments;
use md_wiki::link::resolver::Resolver;
use md_wiki::model::{iter_pages, Node};
use md_wiki::notes::frontmatter::Frontmatter;
use md_wiki::notes::headings;
use md_wiki::notes::ingest::NoteData;
use md_wiki::paths::{entry_dir_path, entry_index_path};
use md_wiki::render::fragment::render_pages;

fn make_node(src: &str, body: &str, title: &str) -> Node {
    let note = NoteData {
        source_file: src.to_string(),
        frontmatter: Frontmatter::default(),
        headings: headings::extract(body),
        first_paragraph: None,
        body: body.to_string(),
    };
    let fragments = build_fragments(&note);
    Node {
        output_path: entry_index_path(src),
        entry_dir: entry_dir_path(src),
        title: title.to_string(),
        note,
        fragments,
        related: vec![],
        backlinks: vec![],
    }
}

fn titles_of(nodes: &[Node]) -> Vec<(String, String)> {
    let mut t = Vec::new();
    for n in nodes {
        for p in iter_pages(n) {
            t.push((p.output_path, p.title));
        }
    }
    t
}

#[test]
fn entry_and_leaf_pages_link_each_other() {
    let n = make_node("foo.md", "# Foo\n\nintro\n\n## A\n\nalpha\n\n## B\n\nbeta\n", "Foo");
    let nodes = vec![n];
    let titles = titles_of(&nodes);
    let resolver = Resolver::build(&nodes);
    let pages = render_pages(&nodes[0], &titles, &resolver);
    let paths: Vec<&str> = pages.iter().map(|p| p.output_path.as_str()).collect();
    assert_eq!(paths, vec!["fragments/foo/index.md", "fragments/foo/a.md", "fragments/foo/b.md"]);
    assert_eq!(
        pages[0].body,
        "# Foo\n\nintro\n\n---\n\n## Fragments\n\n- [A](a.md)\n- [B](b.md)\n"
    );
    assert!(pages[1].body.starts_with("> Parent: [Foo](index.md) · Next: [B](b.md)\n---\n\n## A\n"));
    assert!(pages[1].body.contains("alpha"));
    assert!(!pages[1].body.contains("## Backlinks"));
    assert!(pages[2].body.starts_with("> Parent: [Foo](index.md) · Prev: [A](a.md)\n---\n\n## B\n"));
    assert!(pages[2].body.contains("beta"));
}

#[test]
fn backlinks_and_related_sections() {
    let mut n = make_node("x.md", "# X\n\nbody", "X");
    n.related = vec!["fragments/y/index.md".to_string()];
    n.backlinks = vec![(
        "fragments/x/index.md".to_string(),
        vec!["fragments/z/index.md".to_string()],
    )];
    let titles = vec![
        ("fragments/y/index.md".to_string(), "Old".to_string()),
        ("fragments/y/index.md".to_string(), "Why".to_string()),
    ];
    let nodes = vec![n];
    let resolver = Resolver::build(&nodes);
    let pages = render_pages(&nodes[0], &titles, &resolver);
    assert_eq!(pages.len(), 1);
    assert_eq!(
        pages[0].body,
        "# X\n\nbody\n\n---\n\n## Backlinks\n\n- [fragments/z/index.md](../z/index.md)\n\n## Related\n\n- [Why](../y/index.md)\n"
    );
}

#[test]
fn shell_pages_list_their_children() {
    let mut body = String::from("# Big\n\n## Part\n\nlead\n\n### One\n\n");
    for i in 0..310 {
        body.push_str(&format!("line {i}\n"));
    }
    body.push_str("\n### Two\n\nlast\n");
    let n = make_node("big.md", &body, "Big");
    let nodes = vec![n];
    let titles = titles_of(&nodes);
    let resolver = Resolver::build(&nodes);
    let pages = render_pages(&nodes[0], &titles, &resolver);
    let paths: Vec<&str> = pages.iter().map(|p| p.output_path.as_str()).collect();
    assert_eq!(
        paths,
        vec![
            "fragments/big/index.md",
            "fragments/big/part/index.md",
            "fragments/big/part/one.md",
            "fragments/big/part/two.md"
        ]
    );
    assert!(pages[1].body.starts_with("> Parent: [Big](../index.md)\n---\n\n"));
    assert!(pages[1].body.contains("## Fragments\n\n- [One](one.md)\n- [Two](two.md)\n"));
    assert!(pages[2].body.starts_with("> Parent: [Part](index.md) · Next: [Two](two.md)\n---\n\n### One\n"));
    assert!(pages[3].body.starts_with("> Parent: [Part](index.md) · Prev: [One](one.md)\n---\n\n### Two\n"));
}

#[test]
fn h2_fragments_have_correct_navigation() {
    let n = make_node("n.md", "# N\n\n## Alpha\n\na\n\n## Bravo\n\nb\n\n## Charlie\n\nc\n", "N");
    let nodes = vec![n];
    let titles = titles_of(&nodes);
    let resolver = Resolver::build(&nodes);
    let ps = render_pages(&nodes[0], &titles, &resolver);
    let paths: Vec<&str> = ps.iter().map(|p| p.output_path.as_str()).collect();
    assert_eq!(
        paths,
        vec!["fragments/n/index.md", "fragments/n/alpha.md", "fragments/n/bravo.md", "fragments/n/charlie.md"]
    );
    assert!(ps[1].body.starts_with("> Parent: [N](index.md) · Next: [Bravo](bravo.md)\n---\n\n"));
    assert!(!ps[1].body.contains("Prev:"));
    assert!(ps[2].body.contains("Prev: [Alpha](alpha.md)"));
    assert!(ps[2].body.contains("Next: [Charlie](charlie.md)"));
    assert!(ps[3].body.contains("Prev: [Bravo](bravo.md)"));
    assert!(!ps[3].body.contains("Next:"));
}
