use conversai::models::{Chunk, SpanRecord};
use conversai::query::{
    build_response, citation_for, citations_for, query_diagnostics, requested_k, DEFAULT_K,
    RESPONSE_CHUNKS,
};
use conversai::retrieval::ChunkWithScore;

fn chunk(span: Option<SpanRecord>) -> Chunk {
    Chunk {
        id: 1,
        document_id: 42,
        content: "body".to_string(),
        content_tokens: None,
        section: Some("Intro > Scope".to_string()),
        span,
        metadata: Some("{}".to_string()),
        embedding: None,
        created_at: 0,
    }
}

#[test]
fn requested_k_defaults_to_ten() {
    assert_eq!(requested_k(None), 10);
    assert_eq!(requested_k(Some(3)), 3);
    assert_eq!(DEFAULT_K, 10);
    assert_eq!(RESPONSE_CHUNKS, 8);
}

#[test]
fn citation_reads_span_and_page() {
    let record = SpanRecord { start_char: Some(12), end_char: Some(80), page: Some(3) };
    let citation = citation_for(&chunk(Some(record)), &Some("storage://a.md".to_string()));
    assert_eq!(citation.document_id, 42);
    assert_eq!(citation.source_uri, "storage://a.md");
    assert_eq!(citation.section, Some("Intro > Scope".to_string()));
    assert_eq!(citation.page, Some(3));
    assert_eq!(citation.span, Some((12, 80)));
}

#[test]
fn citation_fills_missing_bounds_with_zero() {
    let record = SpanRecord { start_char: None, end_char: Some(80), page: None };
    let citation = citation_for(&chunk(Some(record)), &None);
    assert_eq!(citation.source_uri, "");
    assert_eq!(citation.page, None);
    assert_eq!(citation.span, Some((0, 80)));
}

#[test]
fn citation_without_span_record_has_no_span() {
    let citation = citation_for(&chunk(None), &None);
    assert_eq!(citation.page, None);
    assert_eq!(citation.span, None);
}

#[test]
fn citations_follow_the_chunks() {
    let record = SpanRecord { start_char: Some(1), end_char: Some(2), page: None };
    let chunks = vec![
        ChunkWithScore { chunk: chunk(None), score: 2, source_uri: Some("u".to_string()) },
        ChunkWithScore { chunk: chunk(Some(record)), score: 1, source_uri: None },
    ];
    let citations = citations_for(&chunks);
    assert_eq!(citations.len(), 2);
    assert_eq!(citations[0].source_uri, "u");
    assert_eq!(citations[0].span, None);
    assert_eq!(citations[1].source_uri, "");
    assert_eq!(citations[1].span, Some((1, 2)));
}

#[test]
fn diagnostics_double_k() {
    let diagnostics = query_diagnostics(10, 120, 80, 5);
    assert_eq!(diagnostics.ann_k, 20);
    assert_eq!(diagnostics.lexical_k, 20);
    assert_eq!(diagnostics.reranker, Some("cosine".to_string()));
    assert_eq!(diagnostics.query_time_ms, 120);
    assert_eq!(diagnostics.embedding_time_ms, 80);
    assert_eq!(diagnostics.rerank_time_ms, 5);
}

#[test]
fn response_keeps_order_and_fills_missing_sources() {
    let record = SpanRecord { start_char: Some(5), end_char: Some(9), page: Some(2) };
    let chosen = vec![
        ChunkWithScore { chunk: chunk(Some(record)), score: 0.9f32.to_bits(), source_uri: Some("u1".to_string()) },
        ChunkWithScore { chunk: chunk(None), score: 0.4f32.to_bits(), source_uri: None },
    ];
    let response = build_response(&chosen, query_diagnostics(3, 30, 20, 1));
    assert_eq!(response.context.len(), 2);
    assert_eq!(response.context[0].score, 0.9f32.to_bits());
    assert_eq!(response.context[0].source_uri, "u1");
    assert_eq!(response.context[0].chunk.content, "body");
    assert_eq!(response.context[1].score, 0.4f32.to_bits());
    assert_eq!(response.context[1].source_uri, "");
    assert_eq!(response.citations.len(), 2);
    assert_eq!(response.citations[0].page, Some(2));
    assert_eq!(response.citations[0].span, Some((5, 9)));
    assert_eq!(response.citations[1].span, None);
    assert_eq!(response.diagnostics.ann_k, 6);
    assert_eq!(response.diagnostics.query_time_ms, 30);
}
