use md_wiki::link::slug::{slugify, slugify_normalized};

#[test]
fn basic_slug() {
    assert_eq!(slugify("Hello World"), "hello-world");
}

#[test]
fn punctuation_removed_not_dashed() {
    assert_eq!(slugify("A.B"), "ab");
    assert_eq!(slugify("foo!bar?"), "foobar");
}

#[test]
fn whitespace_around_dash_preserves_dash() {
    assert_eq!(slugify("A - B / C"), "a-b-c");
}

#[test]
fn underscore_preserved() {
    assert_eq!(slugify("foo_bar"), "foo_bar");
}

#[test]
fn unicode_preserved() {
    assert_eq!(slugify("概要"), "概要");
    assert_eq!(slugify("見出し 1"), "見出し-1");
}

#[test]
fn nfkc_normalizes_fullwidth_ascii() {
    assert_eq!(slugify("ＡＢＣ"), "abc");
}

#[test]
fn strips_leading_trailing() {
    assert_eq!(slugify(" ! hi ! "), "hi");
}

#[test]
fn normalized_slug_skips_normalization() {
    // the full-width letters stay as they are without the NFKC step
    assert_eq!(slugify_normalized("ＡＢ c"), "ＡＢ-c");
    assert_eq!(slugify_normalized("--a\t\tb--"), "a-b");
}
