use semantic_search::chunk_text::{sliding_window_chunk, sliding_window_chunk_indices};

#[test]
fn test_sliding_window_chunk() {
    let text = "This is a sample text for chunking.";
    let chunks: Vec<String> = sliding_window_chunk(text, 10, 5);
    assert_eq!(
        chunks,
        vec![
            "This is a ",
            "is a sampl",
            "sample tex",
            "e text for",
            "t for chun",
            " chunking."
        ]
    );
}

#[test]
fn test_short_input() {
    let text = "Short";
    let chunks: Vec<String> = sliding_window_chunk(text, 10, 5);
    assert_eq!(chunks, vec!["Short"]);
}

#[test]
fn test_no_overlap() {
    let text = "This is a test.";
    let chunks: Vec<String> = sliding_window_chunk(text, 5, 5);
    assert_eq!(chunks, vec!["This ", "is a ", "test."]);
}

#[test]
fn test_full_overlap() {
    let text = "Overlapping";
    let chunks: Vec<String> = sliding_window_chunk(text, 5, 1);
    assert_eq!(
        chunks,
        vec!["Overl", "verla", "erlap", "rlapp", "lappi", "appin", "pping"]
    );
}

#[test]
fn test_unicode() {
    let text = "こんにちは世界";
    let chunks: Vec<String> = sliding_window_chunk(text, 3, 2);
    assert_eq!(chunks, vec!["こんに", "にちは", "は世界"]);
}

#[test]
fn test_emoji() {
    let text = "Hello 👨‍👩‍👧‍👦 World";
    let chunks: Vec<String> = sliding_window_chunk(text, 7, 6);
    assert_eq!(chunks, vec!["Hello 👨‍👩‍👧‍👦", "👨‍👩‍👧‍👦 World"]);
}

#[test]
fn test_combining_characters() {
    let text = "e\u{301}e\u{301}e\u{301}"; // ééé
    let chunks: Vec<String> = sliding_window_chunk(text, 2, 1);
    assert_eq!(chunks, vec!["e\u{301}e\u{301}", "e\u{301}e\u{301}"]);
}

#[test]
fn test_empty_text_yields_no_chunks() {
    assert_eq!(sliding_window_chunk("", 10, 5).len(), 0);
    assert_eq!(sliding_window_chunk_indices("", 10, 5).len(), 0);
}

#[test]
fn test_ascii_byte_indices() {
    let text = "This is a sample text for chunking.";
    let pairs = sliding_window_chunk_indices(text, 10, 5);
    assert_eq!(
        pairs,
        vec![(0, 10), (5, 15), (10, 20), (15, 25), (20, 30), (25, 35)]
    );
    // the final window always ends at the byte length of the text
    assert_eq!(pairs.last().unwrap().1, text.len());
}

#[test]
fn test_multibyte_byte_indices() {
    // each of the seven characters takes three bytes in UTF-8
    let text = "こんにちは世界";
    let pairs = sliding_window_chunk_indices(text, 3, 2);
    assert_eq!(pairs, vec![(0, 9), (6, 15), (12, 21)]);
    for (start, end) in pairs {
        // every boundary is a valid slice bound on the original text
        let _ = &text[start..end];
    }
}

#[test]
fn test_combining_characters_byte_indices() {
    // "e" plus a combining accent: two code points, three bytes per cluster
    let text = "e\u{301}e\u{301}e\u{301}";
    let pairs = sliding_window_chunk_indices(text, 2, 1);
    assert_eq!(pairs, vec![(0, 6), (3, 9)]);
    for (start, end) in pairs {
        assert!(text.is_char_boundary(start));
        assert!(text.is_char_boundary(end));
    }
}

#[test]
fn test_stride_larger_than_chunk_size() {
    let text = "abcdef";
    let chunks: Vec<String> = sliding_window_chunk(text, 2, 3);
    assert_eq!(chunks, vec!["ab", "de"]);
}

#[test]
fn test_whole_text_single_window() {
    // chunk_size equal to the grapheme count: one chunk, the whole text
    let text = "exact";
    let chunks: Vec<String> = sliding_window_chunk(text, 5, 2);
    assert_eq!(chunks, vec!["exact"]);
}
