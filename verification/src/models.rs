//! Plain data that crosses the boundary between the retrieval core and the
//! service around it.

use vstd::prelude::*;

verus! {

/// What a stored chunk's span record holds, as far as it is a number.
#[derive(Clone, Copy, Debug, PartialEq, Eq, Structural)]
pub struct SpanRecord {
    pub start_char: Option<u64>,
    pub end_char: Option<u64>,
    pub page: Option<i64>,
}

/// A chunk as the chunk store returns it. Identifiers are the 128 bits of
/// the stored ids; the embedding is held as the bit patterns of its
/// single-precision components.
pub struct Chunk {
    pub id: u128,
    pub document_id: u128,
    pub content: String,
    pub content_tokens: Option<i32>,
    pub section: Option<String>,
    pub span: Option<SpanRecord>,
    /// The metadata record as JSON text.
    pub metadata: Option<String>,
    pub embedding: Option<Vec<u32>>,
    /// Creation time in microseconds since the Unix epoch.
    pub created_at: i64,
}

/// Mathematical form of a `Chunk`.
pub struct ChunkModel {
    pub id: u128,
    pub document_id: u128,
    pub content: Seq<char>,
    pub content_tokens: Option<i32>,
    pub section: Option<Seq<char>>,
    pub span: Option<SpanRecord>,
    pub metadata: Option<Seq<char>>,
    pub embedding: Option<Seq<u32>>,
    pub created_at: i64,
}

/// The characters of an optional string.
pub open spec fn optional_text(text: Option<String>) -> Option<Seq<char>> {
    match text {
        Some(s) => Some(s@),
        None => None,
    }
}

impl View for Chunk {
    type V = ChunkModel;

    open spec fn view(&self) -> ChunkModel {
        ChunkModel {
            id: self.id,
            document_id: self.document_id,
            content: self.content@,
            content_tokens: self.content_tokens,
            section: optional_text(self.section),
            span: self.span,
            metadata: optional_text(self.metadata),
            embedding: match self.embedding {
                Some(bits) => Some(bits@),
                None => None,
            },
            created_at: self.created_at,
        }
    }
}

/// A copy of an optional string.
pub fn duplicate_text(text: &Option<String>) -> (copy: Option<String>)
    ensures
        optional_text(copy) == optional_text(*text),
{
    match text {
        Some(s) => Some(s.clone()),
        None => None,
    }
}

impl Chunk {
    /// A chunk equal to this one.
    pub fn duplicate(&self) -> (copy: Chunk)
        ensures
            copy@ == self@,
    {
        let embedding = match &self.embedding {
            Some(bits) => {
                let mut out: Vec<u32> = Vec::new();
                let mut i: usize = 0;
                while i < bits.len()
                    invariant
                        i <= bits.len(),
                        out@ == bits@.take(i as int),
                    decreases bits.len() - i,
                {
                    out.push(bits[i]);
                    i += 1;
                    assert(out@ =~= bits@.take(i as int));
                }
                assert(bits@.take(i as int) =~= bits@);
                Some(out)
            },
            None => None,
        };
        Chunk {
            id: self.id,
            document_id: self.document_id,
            content: self.content.clone(),
            content_tokens: self.content_tokens,
            section: duplicate_text(&self.section),
            span: self.span,
            metadata: duplicate_text(&self.metadata),
            embedding,
            created_at: self.created_at,
        }
    }
}

/// A stored document. Identifiers are the 128 bits of the stored id, times
/// are microseconds since the Unix epoch.
pub struct Document {
    pub id: u128,
    pub source_type: String,
    pub source_uri: String,
    pub content_sha256: String,
    pub document_version: i32,
    pub tags: Option<Vec<String>>,
    pub created_at: i64,
    pub updated_at: i64,
}

/// A stored fact. The object is held as JSON text, the certainty and the
/// embedding as the bit patterns of single-precision values.
pub struct Fact {
    pub id: u128,
    pub subject: String,
    pub predicate: String,
    pub object: String,
    pub certainty: u32,
    pub source_uri: Option<String>,
    pub tags: Option<Vec<String>>,
    pub embedding: Option<Vec<u32>>,
    pub created_at: i64,
}

/// A request to ingest a document by reference.
pub struct IngestRequest {
    pub url: Option<String>,
    pub tags: Option<Vec<String>>,
}

/// What an ingest reports: the document, the number of its stored chunks,
/// and an estimate of their tokens.
pub struct IngestResponse {
    pub document_id: u128,
    pub chunks_count: usize,
    pub tokens_estimate: usize,
    pub warnings: Vec<String>,
}

/// A query with its filters and the number of candidates wanted.
pub struct QueryRequest {
    pub query: String,
    pub filters: Option<QueryFilters>,
    pub k: Option<i32>,
}

/// What narrows a query. The date range is in microseconds since the Unix
/// epoch.
pub struct QueryFilters {
    pub tags: Option<Vec<String>>,
    pub document_ids: Option<Vec<u128>>,
    pub date_range: Option<(i64, i64)>,
}

/// A chunk of a response with its score, as the bit pattern of a
/// single-precision number, and the address of its source, empty where that
/// is not known.
pub struct ChunkWithScore {
    pub chunk: Chunk,
    pub score: u32,
    pub source_uri: String,
}

/// The answer to a query: the chosen chunks in order, one citation for
/// each, and how the query was answered.
pub struct QueryResponse {
    pub context: Vec<ChunkWithScore>,
    pub citations: Vec<Citation>,
    pub diagnostics: QueryDiagnostics,
}

/// A user's verdict on the answer to a query.
pub struct FeedbackRequest {
    pub query: String,
    pub selected_chunk_ids: Vec<u128>,
    pub useful: bool,
}

/// Where a piece of context comes from.
pub struct Citation {
    pub document_id: u128,
    pub source_uri: String,
    pub section: Option<String>,
    pub page: Option<i32>,
    pub span: Option<(usize, usize)>,
}

/// How a query was answered.
pub struct QueryDiagnostics {
    pub ann_k: usize,
    pub lexical_k: usize,
    pub reranker: Option<String>,
    pub query_time_ms: u64,
    pub embedding_time_ms: u64,
    pub rerank_time_ms: u64,
}

} // verus!
