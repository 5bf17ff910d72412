use conversai::models::Chunk;
use conversai::retrieval::{rerank_chunks, select_diverse, try_rerank_chunks, ChunkWithScore};

fn chunk(id: u128, document_id: u128, embedded: bool) -> Chunk {
    Chunk {
        id,
        document_id,
        content: format!("chunk {}", id),
        content_tokens: Some(3),
        section: Some("S".to_string()),
        span: None,
        metadata: None,
        embedding: if embedded { Some(vec![0x3f80_0000, 0]) } else { None },
        created_at: 1_700_000_000_000_000,
    }
}

fn scored(id: u128, document_id: u128, score: f32) -> ChunkWithScore {
    ChunkWithScore { chunk: chunk(id, document_id, false), score: score.to_bits(), source_uri: None }
}

fn bits(scores: &[f32]) -> Vec<u32> {
    scores.iter().map(|s| s.to_bits()).collect()
}

fn ids(chunks: &Vec<ChunkWithScore>) -> Vec<u128> {
    chunks.iter().map(|c| c.chunk.id).collect()
}

#[test]
fn five_chunks_of_one_source_give_the_two_best() {
    let chunks = vec![
        scored(1, 7, 10.0),
        scored(2, 7, 50.0),
        scored(3, 7, 30.0),
        scored(4, 7, 40.0),
        scored(5, 7, 20.0),
    ];
    let out = rerank_chunks(&chunks, &Vec::new(), 5);
    assert_eq!(ids(&out), vec![2, 4]);
    assert_eq!(out[0].score, 50.0f32.to_bits());
    assert_eq!(out[1].score, 40.0f32.to_bits());
}

#[test]
fn rerank_orders_by_score_and_caps_each_document() {
    let chunks = vec![
        scored(1, 100, 5.0),
        scored(2, 100, 9.0),
        scored(3, 200, 7.0),
        scored(4, 100, 8.0),
        scored(5, 200, 1.0),
        scored(6, 300, 6.0),
    ];
    let out = rerank_chunks(&chunks, &Vec::new(), 8);
    assert_eq!(ids(&out), vec![2, 4, 3, 6, 5]);
}

#[test]
fn rerank_stops_at_top_k() {
    let chunks = vec![scored(1, 1, 3.0), scored(2, 2, 2.0), scored(3, 3, 1.0)];
    assert_eq!(ids(&rerank_chunks(&chunks, &Vec::new(), 2)), vec![1, 2]);
    assert!(rerank_chunks(&chunks, &Vec::new(), 0).is_empty());
}

#[test]
fn rerank_keeps_ties_in_given_order() {
    let chunks = vec![scored(1, 1, 4.0), scored(2, 2, 4.0), scored(3, 3, 9.0), scored(4, 4, 4.0)];
    assert_eq!(ids(&rerank_chunks(&chunks, &Vec::new(), 8)), vec![3, 1, 2, 4]);
}

#[test]
fn rerank_of_nothing_is_empty() {
    assert!(rerank_chunks(&Vec::new(), &Vec::new(), 8).is_empty());
}

#[test]
fn rerank_takes_similarities_where_chunks_are_embedded() {
    let chunks = vec![
        ChunkWithScore { chunk: chunk(1, 1, true), score: 0.9f32.to_bits(), source_uri: None },
        ChunkWithScore { chunk: chunk(2, 2, false), score: 0.5f32.to_bits(), source_uri: None },
        ChunkWithScore {
            chunk: chunk(3, 3, true),
            score: 0.1f32.to_bits(),
            source_uri: Some("s3".to_string()),
        },
    ];
    let out = rerank_chunks(&chunks, &bits(&[0.2, 0.99, 0.7]), 8);
    assert_eq!(ids(&out), vec![3, 2, 1]);
    assert_eq!(out[0].score, 0.7f32.to_bits());
    assert_eq!(out[1].score, 0.5f32.to_bits());
    assert_eq!(out[2].score, 0.2f32.to_bits());
    assert_eq!(out[0].source_uri, Some("s3".to_string()));
    assert_eq!(out[0].chunk.embedding, Some(vec![0x3f80_0000, 0]));
    assert_eq!(out[0].chunk.content, "chunk 3");
}

#[test]
fn rerank_keeps_scores_when_the_first_chunk_has_no_embedding() {
    let chunks = vec![
        ChunkWithScore { chunk: chunk(1, 1, false), score: 0.9f32.to_bits(), source_uri: None },
        ChunkWithScore { chunk: chunk(2, 2, true), score: 0.5f32.to_bits(), source_uri: None },
    ];
    let out = rerank_chunks(&chunks, &bits(&[0.01, 0.99]), 8);
    assert_eq!(ids(&out), vec![1, 2]);
    assert_eq!(out[1].score, 0.5f32.to_bits());
}

#[test]
fn select_diverse_accepts_under_the_cap() {
    let sources = vec![1, 1, 1, 2, 1, 2, 2, 3];
    assert_eq!(select_diverse(&sources, 10, 2), vec![0, 1, 3, 5, 7]);
    assert_eq!(select_diverse(&sources, 3, 2), vec![0, 1, 3]);
    assert_eq!(select_diverse(&sources, 10, 1), vec![0, 3, 7]);
}

#[test]
fn select_diverse_with_zero_cap_or_zero_k_accepts_nothing() {
    let sources = vec![1, 2, 3];
    assert!(select_diverse(&sources, 3, 0).is_empty());
    assert!(select_diverse(&sources, 0, 2).is_empty());
}

#[test]
fn select_diverse_holds_its_bounds() {
    let sources = vec![4, 4, 9, 4, 9, 9, 9, 5, 4, 5, 5, 5];
    let mut k = 0;
    while k <= 12 {
        let mut cap = 0;
        while cap <= 4 {
            let picked = select_diverse(&sources, k, cap);
            assert!(picked.len() <= k);
            for source in [4u128, 5, 9] {
                assert!(picked.iter().filter(|p| sources[**p] == source).count() <= cap);
            }
            assert!(picked.windows(2).all(|w| w[0] < w[1]));
            cap += 1;
        }
        k += 1;
    }
}

#[test]
fn rerank_orders_negative_scores_and_zeros_as_numbers() {
    let chunks = vec![
        scored(1, 1, -0.5),
        scored(2, 2, 0.0),
        scored(3, 3, -0.0),
        scored(4, 4, 0.25),
        scored(5, 5, -2.0),
        scored(6, 6, f32::INFINITY),
        scored(7, 7, f32::NEG_INFINITY),
        scored(8, 8, 1.0e-40),
    ];
    // The two zeros are equal and keep their order.
    assert_eq!(ids(&rerank_chunks(&chunks, &Vec::new(), 8)), vec![6, 4, 8, 2, 3, 1, 5, 7]);
}

#[test]
fn rerank_agrees_with_a_stable_sort_of_the_scores() {
    let values = [0.3f32, -1.5, 0.3, 7.25, 0.0, -0.0, 2.0e-39, -7.25, 7.25, 1.0];
    let chunks: Vec<ChunkWithScore> =
        values.iter().enumerate().map(|(i, v)| scored(i as u128, i as u128, *v)).collect();
    let mut expected: Vec<usize> = (0..values.len()).collect();
    expected.sort_by(|a, b| values[*b].partial_cmp(&values[*a]).unwrap());
    let out = rerank_chunks(&chunks, &Vec::new(), values.len());
    let got: Vec<usize> = out.iter().map(|c| c.chunk.id as usize).collect();
    assert_eq!(got, expected);
}

#[test]
fn try_rerank_refuses_scores_that_are_not_numbers() {
    let chunks = vec![scored(1, 1, 0.5), scored(2, 2, f32::NAN)];
    assert!(try_rerank_chunks(&chunks, &Vec::new(), 8).is_none());
    let alone = vec![scored(2, 2, f32::NAN)];
    assert_eq!(try_rerank_chunks(&alone, &Vec::new(), 8).unwrap().len(), 1);
    let fine = vec![scored(1, 1, 0.5), scored(2, 2, 0.75)];
    assert_eq!(ids(&try_rerank_chunks(&fine, &Vec::new(), 8).unwrap()), vec![2, 1]);
}

#[test]
fn try_rerank_looks_at_the_scores_after_rescoring() {
    let chunks = vec![
        ChunkWithScore { chunk: chunk(1, 1, true), score: f32::NAN.to_bits(), source_uri: None },
        ChunkWithScore { chunk: chunk(2, 2, true), score: 0.5f32.to_bits(), source_uri: None },
    ];
    // Both chunks are embedded, so their similarities replace their scores.
    let out = try_rerank_chunks(&chunks, &bits(&[0.1, 0.2]), 8).unwrap();
    assert_eq!(ids(&out), vec![2, 1]);
    assert!(try_rerank_chunks(&chunks, &bits(&[0.1, f32::NAN]), 8).is_none());
}
