use conversai::ingest::{
    check_upload, chunk_document, ingest_summary, parse_tags, plan_ingest, storage_uri,
    tokens_estimate, IngestPlan, UploadError, INGEST_MAX_TOKENS, INGEST_OVERLAP_TOKENS,
};

#[test]
fn parse_tags_trims_each_field() {
    assert_eq!(parse_tags("a, b ,c"), vec!["a".to_string(), "b".to_string(), "c".to_string()]);
    assert_eq!(parse_tags(" solo "), vec!["solo".to_string()]);
    assert_eq!(parse_tags("x,, y"), vec!["x".to_string(), "".to_string(), "y".to_string()]);
    assert_eq!(parse_tags(""), vec!["".to_string()]);
}

#[test]
fn storage_uri_prefixes_the_filename() {
    assert_eq!(storage_uri("notes.md"), "storage://notes.md");
    assert_eq!(storage_uri(""), "storage://");
}

#[test]
fn tokens_estimate_is_400_a_chunk() {
    assert_eq!(tokens_estimate(0), 0);
    assert_eq!(tokens_estimate(7), 2800);
}

#[test]
fn chunk_document_segments_then_chunks() {
    assert_eq!(INGEST_MAX_TOKENS, 500);
    assert_eq!(INGEST_OVERLAP_TOKENS, 50);
    let chunks = chunk_document("# Title\nSome body text.\n\n## Part\nMore text here.\n").unwrap();
    assert_eq!(chunks.len(), 2);
    assert_eq!(chunks[0].content, "Title Some body text. ");
    assert_eq!(chunks[0].section, "Title");
    assert_eq!(chunks[1].content, "Part More text here. ");
    assert_eq!(chunks[1].section, "Title > Part");
    assert_eq!(chunks[1].metadata.level, 2);
}

#[test]
fn chunk_document_of_empty_input_is_empty() {
    assert!(chunk_document("").unwrap().is_empty());
}

#[test]
fn ingest_summary_reports_count_and_estimate() {
    let summary = ingest_summary(77, 3);
    assert_eq!(summary.document_id, 77);
    assert_eq!(summary.chunks_count, 3);
    assert_eq!(summary.tokens_estimate, 1200);
    assert!(summary.warnings.is_empty());
}

#[test]
fn upload_needs_file_and_name() {
    assert_eq!(check_upload(true, true), Ok(()));
    assert_eq!(check_upload(false, true), Err(UploadError::MissingFile));
    assert_eq!(check_upload(false, false), Err(UploadError::MissingFile));
    assert_eq!(check_upload(true, false), Err(UploadError::MissingFilename));
}

#[test]
fn plan_reuses_a_stored_document() {
    assert!(matches!(plan_ingest(Some(9), "a.md"), IngestPlan::Reuse { document_id: 9 }));
    match plan_ingest(None, "a.md") {
        IngestPlan::Store { source_uri } => assert_eq!(source_uri, "storage://a.md"),
        IngestPlan::Reuse { .. } => panic!("nothing is stored yet"),
    }
}
