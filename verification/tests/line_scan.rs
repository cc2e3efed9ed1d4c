use md_wiki::large_markdown::LineKindHint;
use md_wiki::line_scan::{scan_lines, scan_physical_lines};

#[test]
fn lines_cover_the_bytes_in_order() {
    let text = "# Title\n\nbody é\n- item";
    let rep = scan_lines("doc.md", text.as_bytes()).unwrap();
    assert_eq!(rep.bytes, text.len() as u64);
    let spans: Vec<(u64, u64, u64, u32)> =
        rep.lines.iter().map(|l| (l.byte_start, l.byte_end, l.line_number, l.char_count)).collect();
    assert_eq!(spans, vec![(0, 8, 1, 8), (8, 9, 2, 1), (9, 17, 3, 7), (17, 23, 4, 6)]);
    let kinds: Vec<LineKindHint> = rep.lines.iter().map(|l| l.kind_hint).collect();
    assert_eq!(kinds, vec![LineKindHint::Heading, LineKindHint::Blank, LineKindHint::Plain, LineKindHint::List]);
}

#[test]
fn empty_input_has_no_lines() {
    let rep = scan_lines("e.md", b"").unwrap();
    assert!(rep.lines.is_empty());
    assert_eq!(rep.bytes, 0);
    let rep = scan_lines("e.md", b"a\n").unwrap();
    assert_eq!(rep.lines.len(), 1);
}

#[test]
fn nul_and_bad_utf8_are_reported_with_their_line() {
    assert_eq!(
        scan_lines("x.md", b"ok\nbad\0\n").unwrap_err(),
        "NULL byte found while scanning x.md at line 2"
    );
    assert_eq!(
        scan_lines("x.md", b"ok\nok\n\xff\n").unwrap_err(),
        "invalid UTF-8 while scanning x.md at line 3"
    );
}

#[test]
fn long_lines_get_cut_points_every_window() {
    let line = "a".repeat(65_000);
    let rep = scan_lines("big.md", line.as_bytes()).unwrap();
    assert_eq!(rep.lines.len(), 1);
    assert_eq!(rep.lines[0].safe_split_offsets, vec![30_000, 60_000]);
    let lines = scan_physical_lines("big.md", line.as_bytes()).unwrap();
    assert_eq!(lines[0].prefix.len(), 8192);
}
