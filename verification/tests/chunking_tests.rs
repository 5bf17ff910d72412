use conversai::chunking::{
    chunk_section, chunk_sections, chunk_tokens, estimate_tokens, plan_windows, ChunkError, Window,
    MAX_BLANK_RUN, MAX_WORD_RUN, P50K_MAX_TOKEN,
};
use conversai::markdown::{parse_markdown, MarkdownSection};

fn words(count: usize) -> String {
    let mut text = String::from("hello");
    let mut i = 1;
    while i < count {
        text.push_str(" hello");
        i += 1;
    }
    text
}

fn section(content: &str, start_offset: usize, end_offset: usize) -> MarkdownSection {
    MarkdownSection {
        content: content.to_string(),
        heading_path: vec!["Guide".to_string(), "Setup".to_string()],
        level: 2,
        start_offset,
        end_offset,
    }
}

#[test]
fn section_within_the_window_is_one_chunk_with_its_content() {
    let source = section("A short section of text.", 10, 34);
    let chunks = chunk_section(&source, 500, 50).unwrap();
    assert_eq!(chunks.len(), 1);
    assert_eq!(chunks[0].content, "A short section of text.");
    assert_eq!(chunks[0].section, "Guide > Setup");
    assert_eq!(chunks[0].tokens, 6);
    assert_eq!(chunks[0].span.start_char, 10);
    assert_eq!(chunks[0].span.end_char, 34);
    assert_eq!(chunks[0].metadata.heading_path, vec!["Guide".to_string(), "Setup".to_string()]);
    assert_eq!(chunks[0].metadata.level, 2);
    assert_eq!(chunks[0].metadata.chunk_index, 0);
}

#[test]
fn section_of_exactly_the_window_is_one_chunk() {
    let text = words(500);
    let chunks = chunk_section(&section(&text, 0, text.len()), 500, 50).unwrap();
    assert_eq!(chunks.len(), 1);
    assert_eq!(chunks[0].tokens, 500);
    assert_eq!(chunks[0].content, text);
}

#[test]
fn section_of_1200_tokens_splits_into_three_windows() {
    let text = words(1200);
    let chunks = chunk_section(&section(&text, 100, 100 + text.len()), 500, 50).unwrap();
    assert_eq!(chunks.len(), 3);
    assert_eq!(chunks[0].tokens, 500);
    assert_eq!(chunks[1].tokens, 500);
    assert_eq!(chunks[2].tokens, 300);
    assert_eq!(chunks[0].content, words(500));
    assert_eq!(chunks[1].content, " hello".repeat(500));
    assert_eq!(chunks[2].content, " hello".repeat(300));
    assert_eq!(chunks[0].metadata.chunk_index, 0);
    assert_eq!(chunks[1].metadata.chunk_index, 1);
    assert_eq!(chunks[2].metadata.chunk_index, 2);
    assert_eq!(chunks[0].span.start_char, 100);
    assert_eq!(chunks[0].span.end_char, 100 + 3 * 500);
    assert_eq!(chunks[1].span.start_char, 100 + 3 * 450);
    assert_eq!(chunks[1].span.end_char, 100 + 3 * 950);
    assert_eq!(chunks[2].span.start_char, 100 + 3 * 900);
    assert_eq!(chunks[2].span.end_char, 100 + text.len());
    assert_eq!(chunks[1].section, "Guide > Setup");
}

#[test]
fn net_forward_coverage_equals_the_token_count() {
    let text = words(1234);
    let overlap = 37;
    let chunks = chunk_section(&section(&text, 0, text.len()), 200, overlap).unwrap();
    let total: usize = chunks.iter().map(|c| c.tokens).sum();
    assert_eq!(total - overlap * (chunks.len() - 1), 1234);
    let mut i = 0;
    while i + 1 < chunks.len() {
        assert_eq!(chunks[i].tokens, 200);
        i += 1;
    }
}

#[test]
fn overlap_not_below_the_window_is_rejected() {
    let source = section("text", 0, 4);
    assert!(matches!(chunk_section(&source, 50, 50), Err(ChunkError::InvalidOverlap)));
    assert!(matches!(chunk_section(&source, 50, 60), Err(ChunkError::InvalidOverlap)));
    assert!(matches!(chunk_section(&source, 0, 0), Err(ChunkError::InvalidOverlap)));
    assert!(matches!(chunk_sections(&Vec::new(), 10, 10), Err(ChunkError::InvalidOverlap)));
    assert!(matches!(chunk_tokens(&source, &vec![1, 2, 3], 2, 2), Err(ChunkError::InvalidOverlap)));
}

#[test]
fn largest_valid_overlap_terminates() {
    let text = words(40);
    let chunks = chunk_section(&section(&text, 0, text.len()), 10, 9).unwrap();
    assert_eq!(chunks.len(), 31);
    assert_eq!(chunks[30].tokens, 10);
}

#[test]
fn two_headed_document_gives_one_chunk_per_heading() {
    let body = words(298);
    let doc = format!("# A\n{}\n\n# B\n{}\n", body, body);
    let sections = parse_markdown(&doc);
    assert_eq!(sections.len(), 2);
    let chunks = chunk_sections(&sections, 500, 50).unwrap();
    assert_eq!(chunks.len(), 2);
    assert_eq!(chunks[0].section, "A");
    assert_eq!(chunks[1].section, "B");
    assert_eq!(chunks[0].content, sections[0].content);
    assert_eq!(chunks[1].content, sections[1].content);
    assert!(chunks[0].tokens <= 500);
    assert!(chunks[1].tokens <= 500);
    assert_eq!(chunks[0].metadata.chunk_index, 0);
    assert_eq!(chunks[1].metadata.chunk_index, 0);
}

#[test]
fn no_section_gives_no_chunk() {
    assert!(chunk_sections(&Vec::new(), 500, 50).unwrap().is_empty());
    assert!(chunk_sections(&parse_markdown(""), 500, 50).unwrap().is_empty());
}

#[test]
fn chunks_of_several_sections_follow_each_other() {
    let long = words(25);
    let sections = vec![section("short", 0, 5), section(&long, 5, 5 + long.len())];
    let chunks = chunk_sections(&sections, 10, 0).unwrap();
    assert_eq!(chunks.len(), 4);
    assert_eq!(chunks[0].metadata.chunk_index, 0);
    assert_eq!(chunks[1].metadata.chunk_index, 0);
    assert_eq!(chunks[2].metadata.chunk_index, 1);
    assert_eq!(chunks[3].metadata.chunk_index, 2);
    assert_eq!(chunks[3].tokens, 5);
}

#[test]
fn window_that_cuts_a_character_is_undecodable() {
    // The four bytes of this character are spread over more than one token.
    let source = section("\u{1F600}", 0, 4);
    assert!(matches!(chunk_section(&source, 1, 0), Err(ChunkError::Undecodable)));
}

#[test]
fn token_outside_the_vocabulary_is_undecodable() {
    let source = section("ignored", 0, 7);
    let tokens = vec![31373, P50K_MAX_TOKEN + 1, 23748];
    assert!(matches!(chunk_tokens(&source, &tokens, 2, 1), Err(ChunkError::Undecodable)));
}

#[test]
fn chunk_tokens_decodes_each_window() {
    let source = section("ignored", 7, 99);
    let tokens = vec![31373, 23748, 23748, 23748, 23748];
    let chunks = chunk_tokens(&source, &tokens, 2, 1).unwrap();
    assert_eq!(chunks.len(), 4);
    assert_eq!(chunks[0].content, "hello hello");
    assert_eq!(chunks[1].content, " hello hello");
    assert_eq!(chunks[3].content, " hello hello");
    assert_eq!(chunks[1].span.start_char, 7 + 3);
    assert_eq!(chunks[1].span.end_char, 7 + 9);
    assert_eq!(chunks[3].span.end_char, 99);
}

#[test]
fn span_estimate_beyond_the_word_is_an_error() {
    let text = words(30);
    let source = section(&text, usize::MAX - 10, usize::MAX);
    assert!(matches!(chunk_section(&source, 10, 2), Err(ChunkError::SpanOverflow)));
    // One chunk needs no estimate.
    assert_eq!(chunk_section(&source, 100, 2).unwrap().len(), 1);
}

#[test]
fn run_of_white_space_beyond_the_limit_is_refused() {
    assert_eq!(MAX_BLANK_RUN, 999_998);
    let long = format!("a{}b", " ".repeat(MAX_BLANK_RUN + 1));
    let source = section(&long, 0, long.len());
    assert!(matches!(chunk_section(&source, 500, 50), Err(ChunkError::RunTooLong)));
    assert!(matches!(chunk_sections(&vec![source], 500, 50), Err(ChunkError::RunTooLong)));
    let shorter = format!("a{}b", " ".repeat(300));
    let source = section(&shorter, 0, shorter.len());
    assert_eq!(chunk_section(&source, 500, 50).unwrap().len(), 1);
}

#[test]
fn run_of_other_characters_beyond_the_limit_is_refused() {
    assert_eq!(MAX_WORD_RUN, 999_997);
    let long = format!("a {}", "b".repeat(MAX_WORD_RUN + 1));
    let source = section(&long, 0, long.len());
    assert!(matches!(chunk_section(&source, 500, 50), Err(ChunkError::RunTooLong)));
    let mixed = format!("{} {}", "ab1-".repeat(100), "x".repeat(200));
    let source = section(&mixed, 0, mixed.len());
    assert_eq!(chunk_section(&source, 5000, 50).unwrap().len(), 1);
}

#[test]
fn plan_windows_advances_by_window_less_overlap() {
    assert_eq!(
        plan_windows(1200, 500, 50),
        vec![
            Window { start: 0, end: 500 },
            Window { start: 450, end: 950 },
            Window { start: 900, end: 1200 }
        ]
    );
    assert_eq!(plan_windows(500, 500, 50), vec![Window { start: 0, end: 500 }]);
    assert_eq!(
        plan_windows(501, 500, 0),
        vec![Window { start: 0, end: 500 }, Window { start: 500, end: 501 }]
    );
    assert_eq!(plan_windows(0, 5, 1), vec![Window { start: 0, end: 0 }]);
}

#[test]
fn estimate_tokens_is_a_quarter_of_the_bytes() {
    assert_eq!(estimate_tokens(""), 0);
    assert_eq!(estimate_tokens("abc"), 0);
    assert_eq!(estimate_tokens("abcdefgh"), 2);
    assert_eq!(estimate_tokens("\u{e9}\u{e9}"), 1);
}
