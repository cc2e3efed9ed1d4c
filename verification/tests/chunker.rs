use md_wiki::chunker::chunk;

#[test]
fn small_text_is_single_chunk() {
    let text = "hello world";
    let chunks = chunk(text);
    assert_eq!(chunks.len(), 1);
    assert_eq!(chunks[0], "hello world");
}

#[test]
fn large_text_is_split() {
    let line = "abcdefghij\n";
    let text = line.repeat(1000);
    let chunks = chunk(&text);
    assert!(chunks.len() > 1);
}

#[test]
fn chunks_reconstruct_original() {
    let line = "abcdefghij\n";
    let text = line.repeat(1000);
    let chunks = chunk(&text);
    let reconstructed: String = chunks.concat();
    assert_eq!(reconstructed, text);
}

#[test]
fn handles_multibyte_characters() {
    let line = "あいうえおかきくけこ\n";
    let text = line.repeat(500);
    let chunks = chunk(&text);
    assert!(chunks.len() > 1);
    let reconstructed: String = chunks.concat();
    assert_eq!(reconstructed, text);
}

#[test]
fn empty_text_has_no_chunks_or_one_empty() {
    let chunks = chunk("");
    let joined: String = chunks.concat();
    assert_eq!(joined, "");
}
