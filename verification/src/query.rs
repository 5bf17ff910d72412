//! What the query path decides between its calls to the embedding provider
//! and the chunk store: how many candidates to ask for, and how the chosen
//! chunks are cited and accounted for.

use crate::models::{
    duplicate_text, optional_text, Chunk, Citation, QueryDiagnostics, QueryResponse, SpanRecord,
};
use crate::retrieval::ChunkWithScore;
use vstd::prelude::*;

verus! {

/// The number of candidates asked of the chunk store when the request
/// names none.
pub const DEFAULT_K: i32 = 10;

/// The number of chunks that a response holds at most.
pub const RESPONSE_CHUNKS: usize = 8;

/// The number of candidates to ask the chunk store for.
pub fn requested_k(k: Option<i32>) -> (chosen: i32)
    ensures
        chosen == match k {
            Some(value) => value,
            None => DEFAULT_K,
        },
{
    match k {
        Some(value) => value,
        None => DEFAULT_K,
    }
}

/// The character span that a span record gives: either bound counts as 0
/// where the record does not hold it as a number.
pub open spec fn cited_span(record: SpanRecord) -> (usize, usize) {
    (
        match record.start_char {
            Some(start) => start as usize,
            None => 0,
        },
        match record.end_char {
            Some(end) => end as usize,
            None => 0,
        },
    )
}

/// The text of `uri`, or the empty text where there is none.
pub open spec fn uri_or_empty(uri: Option<Seq<char>>) -> Seq<char> {
    match uri {
        Some(text) => text,
        None => Seq::empty(),
    }
}

/// Whether `citation` cites `chunk` under the source `source_uri`.
pub open spec fn cites(citation: Citation, chunk: Chunk, source_uri: Option<Seq<char>>) -> bool {
    &&& citation.document_id == chunk.document_id
    &&& citation.source_uri@ == uri_or_empty(source_uri)
    &&& optional_text(citation.section) == optional_text(chunk.section)
    &&& citation.page == match chunk.span {
        Some(record) => match record.page {
            Some(page) => Some(page as i32),
            None => None,
        },
        None => None,
    }
    &&& citation.span == match chunk.span {
        Some(record) => Some(cited_span(record)),
        None => None,
    }
}

/// The citation of a chunk: its document, source and section, and the page
/// and character span that its span record holds.
pub fn citation_for(chunk: &Chunk, source_uri: &Option<String>) -> (citation: Citation)
    ensures
        cites(citation, *chunk, optional_text(*source_uri)),
{
    let uri = match source_uri {
        Some(text) => text.clone(),
        None => String::new(),
    };
    let page = match chunk.span {
        Some(record) => match record.page {
            Some(page) => Some(#[verifier::truncate] (page as i32)),
            None => None,
        },
        None => None,
    };
    let span = match chunk.span {
        Some(record) => Some(
            (
                match record.start_char {
                    Some(start) => #[verifier::truncate] (start as usize),
                    None => 0,
                },
                match record.end_char {
                    Some(end) => #[verifier::truncate] (end as usize),
                    None => 0,
                },
            ),
        ),
        None => None,
    };
    Citation {
        document_id: chunk.document_id,
        source_uri: uri,
        section: duplicate_text(&chunk.section),
        page,
        span,
    }
}

/// One citation for each chunk, in order.
pub fn citations_for(chunks: &[ChunkWithScore]) -> (citations: Vec<Citation>)
    ensures
        citations.len() == chunks.len(),
        forall|i: int|
            0 <= i < chunks.len() ==> cites(
                #[trigger] citations@[i],
                chunks@[i].chunk,
                optional_text(chunks@[i].source_uri),
            ),
{
    let mut citations: Vec<Citation> = Vec::new();
    let mut i: usize = 0;
    while i < chunks.len()
        invariant
            i <= chunks.len(),
            citations.len() == i,
            forall|j: int|
                0 <= j < i ==> cites(
                    #[trigger] citations@[j],
                    chunks@[j].chunk,
                    optional_text(chunks@[j].source_uri),
                ),
        decreases chunks.len() - i,
    {
        let citation = citation_for(&chunks[i].chunk, &chunks[i].source_uri);
        citations.push(citation);
        i += 1;
    }
    citations
}

/// Whether `entry` is the response form of `scored`: the same chunk and
/// score, and the source address or the empty text.
pub open spec fn responds(entry: crate::models::ChunkWithScore, scored: ChunkWithScore) -> bool {
    &&& entry.chunk@ == scored.chunk@
    &&& entry.score == scored.score
    &&& entry.source_uri@ == uri_or_empty(optional_text(scored.source_uri))
}

/// The response to a query: the chosen chunks in their order, each with its
/// citation, and the diagnostics as given.
pub fn build_response(chosen: &[ChunkWithScore], diagnostics: QueryDiagnostics) -> (response:
    QueryResponse)
    ensures
        response.context.len() == chosen.len(),
        response.citations.len() == chosen.len(),
        forall|i: int|
            0 <= i < chosen.len() ==> responds(#[trigger] response.context@[i], chosen@[i]),
        forall|i: int|
            0 <= i < chosen.len() ==> cites(
                #[trigger] response.citations@[i],
                chosen@[i].chunk,
                optional_text(chosen@[i].source_uri),
            ),
        response.diagnostics == diagnostics,
{
    let mut context: Vec<crate::models::ChunkWithScore> = Vec::new();
    let mut citations: Vec<Citation> = Vec::new();
    let mut i: usize = 0;
    while i < chosen.len()
        invariant
            i <= chosen.len(),
            context.len() == i,
            citations.len() == i,
            forall|j: int| 0 <= j < i ==> responds(#[trigger] context@[j], chosen@[j]),
            forall|j: int|
                0 <= j < i ==> cites(
                    #[trigger] citations@[j],
                    chosen@[j].chunk,
                    optional_text(chosen@[j].source_uri),
                ),
        decreases chosen.len() - i,
    {
        let scored = &chosen[i];
        let entry = crate::models::ChunkWithScore {
            chunk: scored.chunk.duplicate(),
            score: scored.score,
            source_uri: match &scored.source_uri {
                Some(text) => text.clone(),
                None => String::new(),
            },
        };
        context.push(entry);
        citations.push(citation_for(&scored.chunk, &scored.source_uri));
        i += 1;
    }
    QueryResponse { context, citations, diagnostics }
}

/// The diagnostics of a query that asked for `k` candidates: twice `k`
/// for either candidate pool, the cosine reranker, and the times taken.
pub fn query_diagnostics(
    k: i32,
    query_time_ms: u64,
    embedding_time_ms: u64,
    rerank_time_ms: u64,
) -> (diagnostics: QueryDiagnostics)
    requires
        k >= 0,
    ensures
        diagnostics.ann_k == 2 * k,
        diagnostics.lexical_k == 2 * k,
        optional_text(diagnostics.reranker) == Some("cosine"@),
        diagnostics.query_time_ms == query_time_ms,
        diagnostics.embedding_time_ms == embedding_time_ms,
        diagnostics.rerank_time_ms == rerank_time_ms,
{
    let pool: usize = (k as usize) * 2;
    QueryDiagnostics {
        ann_k: pool,
        lexical_k: pool,
        reranker: Some("cosine".to_owned()),
        query_time_ms,
        embedding_time_ms,
        rerank_time_ms,
    }
}

} // verus!
