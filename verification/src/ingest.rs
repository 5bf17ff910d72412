//! What the ingest path computes between its calls to storage and to the
//! embedding provider: the tags of an upload, the chunks of its document,
//! and the summary of what was stored.

use crate::chunking::{chunk_sections, chunked_all, outcome_model, Chunk, ChunkError};
use crate::markdown::{parse_markdown, parsed_events, segments};
use crate::models::IngestResponse;
use crate::text::{fields, split_fields, texts, trim, trimmed};
use vstd::prelude::*;
use vstd::string::StringExecFns;

verus! {

/// The window of an ingested document's chunks, in tokens.
pub const INGEST_MAX_TOKENS: usize = 500;

/// The overlap of neighbouring chunks of an ingested document, in tokens.
pub const INGEST_OVERLAP_TOKENS: usize = 50;

/// The tokens reckoned for each stored chunk in an ingest summary.
pub const TOKENS_PER_CHUNK: usize = 400;

/// What an upload lacks.
#[derive(Clone, Copy, Debug, PartialEq, Eq, Structural)]
pub enum UploadError {
    /// No part of the upload holds the file.
    MissingFile,
    /// The file part carries no file name.
    MissingFilename,
}

/// Whether an upload can be ingested: it needs a file, and the file a name.
/// A missing file is reported before a missing name.
pub fn check_upload(has_file: bool, has_filename: bool) -> (outcome: Result<(), UploadError>)
    ensures
        outcome == if !has_file {
            Err::<(), UploadError>(UploadError::MissingFile)
        } else if !has_filename {
            Err::<(), UploadError>(UploadError::MissingFilename)
        } else {
            Ok::<(), UploadError>(())
        },
{
    if !has_file {
        Err(UploadError::MissingFile)
    } else if !has_filename {
        Err(UploadError::MissingFilename)
    } else {
        Ok(())
    }
}

/// What to do with an upload once the store has been asked for a document
/// of the same content.
pub enum IngestPlan {
    /// The content is stored already: nothing is chunked or embedded, and
    /// the summary speaks of the stored document.
    Reuse { document_id: u128 },
    /// The content is new: it is stored under `source_uri`, then chunked
    /// and embedded.
    Store { source_uri: String },
}

/// Decides between reusing a stored document and storing a new one.
pub fn plan_ingest(existing: Option<u128>, filename: &str) -> (plan: IngestPlan)
    ensures
        match existing {
            Some(id) => plan matches IngestPlan::Reuse { document_id } && document_id == id,
            None => plan matches IngestPlan::Store { source_uri } && source_uri@ == "storage://"@
                + filename@,
        },
{
    match existing {
        Some(document_id) => IngestPlan::Reuse { document_id },
        None => IngestPlan::Store { source_uri: storage_uri(filename) },
    }
}

/// The tags that a comma-separated list names: its fields, each trimmed.
pub open spec fn tag_list(text: Seq<char>) -> Seq<Seq<char>> {
    fields(text, ',').map_values(|field: Seq<char>| trimmed(field))
}

/// Reads a comma-separated list of tags.
pub fn parse_tags(text: &str) -> (tags: Vec<String>)
    ensures
        texts(tags@) == tag_list(text@),
{
    let raw = split_fields(text, ',');
    let ghost all = texts(raw@);
    let mut tags: Vec<String> = Vec::new();
    let mut i: usize = 0;
    assert(texts(tags@) =~= tag_list(text@).take(0));
    while i < raw.len()
        invariant
            i <= raw.len(),
            all == texts(raw@),
            all == fields(text@, ','),
            texts(tags@) == tag_list(text@).take(i as int),
        decreases raw.len() - i,
    {
        let tag = trim(raw[i].as_str());
        let ghost before = tags@;
        tags.push(tag);
        assert(texts(tags@) =~= texts(before).push(tag@));
        i += 1;
        assert(texts(tags@) =~= tag_list(text@).take(i as int));
    }
    assert(tag_list(text@).take(i as int) =~= tag_list(text@));
    tags
}

/// The storage address under which an upload named `filename` is kept.
pub fn storage_uri(filename: &str) -> (uri: String)
    ensures
        uri@ == "storage://"@ + filename@,
{
    let mut uri = "storage://".to_owned();
    uri.append(filename);
    uri
}

/// Segments a markdown document and chunks its sections with the window
/// and overlap of the ingest path. A document without text gives no chunk.
pub fn chunk_document(content: &str) -> (outcome: Result<Vec<Chunk>, ChunkError>)
    ensures
        outcome_model(outcome) == chunked_all(
            segments(parsed_events(content@), vstd::utf8::encode_utf8(content@).len()),
            INGEST_MAX_TOKENS as nat,
            INGEST_OVERLAP_TOKENS as nat,
        ),
        outcome != Err::<Vec<Chunk>, ChunkError>(ChunkError::InvalidOverlap),
{
    let sections = parse_markdown(content);
    chunk_sections(&sections, INGEST_MAX_TOKENS, INGEST_OVERLAP_TOKENS)
}

/// The token estimate of an ingest summary: 400 for each stored chunk.
pub fn tokens_estimate(chunks_count: usize) -> (estimate: usize)
    requires
        chunks_count * TOKENS_PER_CHUNK <= usize::MAX,
    ensures
        estimate == chunks_count * TOKENS_PER_CHUNK,
{
    chunks_count * TOKENS_PER_CHUNK
}

/// The summary of an ingest: the document, the number of its stored chunks,
/// the token estimate for them, and no warning.
pub fn ingest_summary(document_id: u128, chunks_count: usize) -> (summary: IngestResponse)
    requires
        chunks_count * TOKENS_PER_CHUNK <= usize::MAX,
    ensures
        summary.document_id == document_id,
        summary.chunks_count == chunks_count,
        summary.tokens_estimate == chunks_count * TOKENS_PER_CHUNK,
        summary.warnings@.len() == 0,
{
    IngestResponse {
        document_id,
        chunks_count,
        tokens_estimate: tokens_estimate(chunks_count),
        warnings: Vec::new(),
    }
}

} // verus!
