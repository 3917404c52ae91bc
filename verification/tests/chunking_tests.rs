use gemini_rag::chunking::split_into_chunks;
use gemini_rag::document::normalize_whitespace;
use gemini_rag::tokens::estimate_token_count;

#[test]
fn test_normalize_whitespace() {
    let text =
        "This  has   multiple    spaces.\n\n\nAnd multiple newlines.\r\nAnd Windows line endings.";
    let expected = "This has multiple spaces.\n\nAnd multiple newlines.\nAnd Windows line endings.";
    assert_eq!(normalize_whitespace(text), expected);
}

#[test]
fn estimate_empty_is_zero() {
    assert_eq!(estimate_token_count(""), 0);
    assert_eq!(estimate_token_count("   \t\n  "), 0);
}

#[test]
fn estimate_counts_words_and_punctuation() {
    assert_eq!(estimate_token_count("hello world"), 2);
    assert_eq!(estimate_token_count("Hi, there!"), 4);
    assert_eq!(estimate_token_count("."), 2);
    assert_eq!(estimate_token_count("one two three"), 3);
}

#[test]
fn split_single_small_document() {
    let text = "First paragraph.\n\nSecond paragraph.";
    let chunks = split_into_chunks(text, "doc.txt");
    assert_eq!(chunks.len(), 1);
    assert_eq!(chunks[0].text, "First paragraph.\n\nSecond paragraph.");
    assert_eq!(chunks[0].document_id, "doc.txt");
    assert_eq!(chunks[0].token_count, 6);
    assert_eq!(chunks[0].start_position, 0);
}

#[test]
fn split_empty_input_yields_no_chunks() {
    assert!(split_into_chunks("", "doc.txt").is_empty());
    assert!(split_into_chunks("   \n\n \t ", "doc.txt").is_empty());
}

#[test]
fn split_stamps_every_chunk_with_document_id() {
    let mut text = String::new();
    for i in 0..200 {
        text.push_str(&format!("Paragraph number {} has a few words in it.\n\n", i));
    }
    let chunks = split_into_chunks(&text, "ids.txt");
    assert!(chunks.len() > 1);
    for c in &chunks {
        assert_eq!(c.document_id, "ids.txt");
    }
}

#[test]
fn split_token_counts_match_estimates() {
    let mut text = String::new();
    for i in 0..150 {
        text.push_str(&format!("Sentence {} is short. It has punctuation, too!\n\n", i));
    }
    let chunks = split_into_chunks(&text, "counts.txt");
    assert!(!chunks.is_empty());
    for c in &chunks {
        assert_eq!(c.token_count, estimate_token_count(&c.text));
        assert!(!c.text.is_empty());
        assert_eq!(c.text.trim(), c.text);
    }
}

#[test]
fn split_is_deterministic() {
    let mut text = String::new();
    for i in 0..120 {
        text.push_str(&format!("Line {} of the document, with words.\n\n", i));
    }
    let a = split_into_chunks(&text, "same.txt");
    let b = split_into_chunks(&text, "same.txt");
    assert_eq!(a.len(), b.len());
    for (x, y) in a.iter().zip(b.iter()) {
        assert_eq!(x.text, y.text);
        assert_eq!(x.token_count, y.token_count);
        assert_eq!(x.document_id, y.document_id);
        assert_eq!(x.start_position, y.start_position);
    }
}

#[test]
fn split_keeps_every_small_paragraph() {
    let mut text = String::new();
    for i in 0..80 {
        text.push_str(&format!("Paragraph {} talks about one topic at length here.\n\n", i));
    }
    let chunks = split_into_chunks(&text, "cover.txt");
    for p in text.split("\n\n").filter(|p| !p.trim().is_empty()) {
        let p = p.trim();
        assert!(
            chunks.iter().any(|c| c.text.contains(p)),
            "paragraph not covered: {}",
            p
        );
    }
}

#[test]
fn oversized_single_paragraph_falls_into_sentence_mode() {
    // One paragraph, no blank lines, estimated tokens far above 1500.
    let text = "A. B. C. ".repeat(300);
    assert!(estimate_token_count(&text) > 1500);
    let chunks = split_into_chunks(&text, "big.txt");
    assert!(chunks.len() > 1);
    for c in &chunks {
        assert!(c.token_count <= 550, "chunk too large: {}", c.token_count);
        assert_eq!(c.document_id, "big.txt");
        assert!(!c.text.is_empty());
    }
}

#[test]
fn overlap_carries_tail_into_next_chunk() {
    let mut text = String::new();
    for i in 0..200 {
        text.push_str(&format!("Paragraph {} carries several words of content.\n\n", i));
    }
    let chunks = split_into_chunks(&text, "tails.txt");
    assert!(chunks.len() > 1);
    // Each later chunk begins with the trailing characters of its
    // predecessor (the seeded overlap), so consecutive texts share material.
    let first_of_second: String = chunks[1].text.chars().take(20).collect();
    assert!(chunks[0].text.contains(&first_of_second));
}

#[test]
fn estimate_handles_unicode_text() {
    // Non-ASCII letters are not ASCII punctuation; a no-break space still
    // separates words.
    assert_eq!(estimate_token_count("h\u{e9}llo w\u{f6}rld"), 2);
    assert_eq!(estimate_token_count("a\u{a0}b"), 2);
    assert_eq!(estimate_token_count("caf\u{e9}!"), 2);
}

#[test]
fn oversized_paragraph_keeps_every_sentence() {
    // One paragraph far above the target: the splitter falls into sentence
    // mode, and every sentence must still appear in some chunk.
    let mut text = String::new();
    for i in 0..120 {
        text.push_str(&format!("Sentence number {} is distinct and unique. ", i));
    }
    assert!(estimate_token_count(&text) > 500);
    let chunks = split_into_chunks(&text, "sent.txt");
    assert!(chunks.len() > 1);
    for s in text.split(['.', '!', '?', '\n']) {
        let s = s.trim();
        if s.is_empty() {
            continue;
        }
        assert!(
            chunks.iter().any(|c| c.text.contains(s)),
            "sentence not covered: {}",
            s
        );
    }
}
