use rusty_rag_core::chunker::chunk_by_tokens;
use rusty_rag_core::chunker::chunk_text;
use rusty_rag_core::chunker::chunk_text_parallel;

#[test]
fn test_basic_chunking() {
    let text = "a".repeat(2500);
    let chunks = chunk_text(&text, 1000, 100);
    assert_eq!(chunks.len(), 3);
    assert_eq!(chunks[0].len(), 1000);
    assert_eq!(chunks[1].len(), 1000);
    assert_eq!(chunks[2].len(), 700);
}

#[test]
fn test_overlap() {
    let text: String = (0..2000).map(|i| char::from(b'A' + (i % 26) as u8)).collect();
    let chunks = chunk_text(&text, 1000, 100);
    let tail_of_first = &chunks[0][900..1000];
    let head_of_second = &chunks[1][0..100];
    assert_eq!(tail_of_first, head_of_second, "Overlap region must match");
}

#[test]
fn test_no_content_lost() {
    let text = "The quick brown fox jumps over the lazy dog. ".repeat(50);
    let chunks = chunk_text(&text, 1000, 100);
    let mut reconstructed = String::new();
    for (i, chunk) in chunks.iter().enumerate() {
        if i == 0 {
            reconstructed.push_str(chunk);
        } else {
            let new_content = &chunk[100.min(chunk.len())..];
            reconstructed.push_str(new_content);
        }
    }
    assert_eq!(reconstructed, text, "Reconstructed text must match original");
}

#[test]
fn test_small_text() {
    let text = "Hello, world!";
    let chunks = chunk_text(text, 1000, 100);
    assert_eq!(chunks.len(), 1);
    assert_eq!(chunks[0], text);
}

#[test]
fn test_empty_text() {
    let chunks = chunk_text("", 1000, 100);
    assert!(chunks.is_empty());
}

#[test]
fn test_exact_chunk_size() {
    let text = "x".repeat(1000);
    let chunks = chunk_text(&text, 1000, 100);
    assert_eq!(chunks.len(), 1);
    assert_eq!(chunks[0].len(), 1000);
}

#[test]
fn test_parallel_matches_sequential() {
    let text = "The quick brown fox jumps over the lazy dog. ".repeat(100);
    let sequential = chunk_text(&text, 1000, 100);
    let parallel = chunk_text_parallel(&text, 1000, 100);
    assert_eq!(sequential, parallel, "Parallel output must match sequential");
}

#[test]
fn test_parallel_empty_text() {
    let chunks = chunk_text_parallel("", 1000, 100);
    assert!(chunks.is_empty());
}

#[test]
fn test_parallel_small_text() {
    let text = "Hello, world!";
    let chunks = chunk_text_parallel(text, 1000, 100);
    assert_eq!(chunks.len(), 1);
    assert_eq!(chunks[0], text);
}

#[test]
fn test_parallel_large_document() {
    let text = "x".repeat(100_000);
    let sequential = chunk_text(&text, 500, 50);
    let parallel = chunk_text_parallel(&text, 500, 50);
    assert_eq!(sequential.len(), parallel.len());
    assert_eq!(sequential, parallel);
}

#[test]
fn test_token_chunk_basic() {
    let text = "one two three four five six seven eight nine ten";
    let chunks = chunk_by_tokens(text, 4, 1);
    assert_eq!(chunks.len(), 3);
    assert!(chunks[0].contains("one"));
    assert!(chunks[0].contains("four"));
}

#[test]
fn test_token_chunk_preserves_formatting() {
    let text = "Hello, World!   This is   a   test.";
    let chunks = chunk_by_tokens(text, 100, 0);
    assert_eq!(chunks.len(), 1);
    assert!(chunks[0].contains("World!   This"));
}

#[test]
fn test_token_chunk_empty() {
    assert!(chunk_by_tokens("", 10, 2).is_empty());
    assert!(chunk_by_tokens("hello", 0, 0).is_empty());
}

#[test]
fn test_token_chunk_small_text() {
    let text = "just three words";
    let chunks = chunk_by_tokens(text, 10, 2);
    assert_eq!(chunks.len(), 1);
}

#[test]
fn test_token_chunk_trims_whitespace() {
    let chunks = chunk_by_tokens("   hi there.   ", 10, 0);
    assert_eq!(chunks, vec!["hi there."]);
}

#[test]
fn test_unicode_chunking() {
    // windows are counted in characters, so multi-byte text must never
    // split inside a character's encoding
    let text = "αβγδε".repeat(100);
    let chunks = chunk_text(&text, 7, 2);
    let parallel = chunk_text_parallel(&text, 7, 2);
    assert_eq!(chunks, parallel);
    assert_eq!(chunks[0].chars().count(), 7);
    let mut reconstructed = String::new();
    for (i, chunk) in chunks.iter().enumerate() {
        if i == 0 {
            reconstructed.push_str(chunk);
        } else {
            let skipped: String = chunk.chars().skip(2).collect();
            reconstructed.push_str(&skipped);
        }
    }
    assert_eq!(reconstructed, text);
}

#[test]
fn test_degenerate_zero_size() {
    assert!(chunk_text("some text", 0, 0).is_empty());
    assert!(chunk_text_parallel("some text", 0, 3).is_empty());
}

#[test]
fn test_overlap_at_least_size_still_terminates() {
    // overlap >= size forces a step of one character
    let chunks = chunk_text("abcdef", 3, 5);
    assert_eq!(chunks, vec!["abc", "bcd", "cde", "def"]);
}
