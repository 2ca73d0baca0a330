use stardust::ingest::{check_upload_name, file_extension, is_supported_file_type, IngestError};

#[test]
fn extension_after_last_dot() {
    assert_eq!(file_extension("report.final.PDF"), "PDF");
    assert_eq!(file_extension("notes.md"), "md");
    assert_eq!(file_extension("README"), "README");
    assert_eq!(file_extension("trailing."), "");
    assert_eq!(file_extension(".md"), "md");
}

#[test]
fn supported_types_ignore_case() {
    for ok in ["pdf", "PDF", "Pdf", "md", "MD", "mD"] {
        assert!(is_supported_file_type(ok), "{}", ok);
    }
    for bad in ["", "txt", "pd", "pdff", "markdown", "m d"] {
        assert!(!is_supported_file_type(bad), "{}", bad);
    }
}

#[test]
fn upload_names_are_checked() {
    assert_eq!(check_upload_name(None), Err(IngestError::NoFilename));
    assert_eq!(check_upload_name(Some("doc.txt")), Err(IngestError::UnsupportedFileType));
    // a name without a dot is its own extension
    assert_eq!(check_upload_name(Some("pdf")), Ok("pdf".to_string()));
    assert_eq!(check_upload_name(Some("report")), Err(IngestError::UnsupportedFileType));
    assert_eq!(check_upload_name(Some("Doc.PDF")), Ok("Doc.PDF".to_string()));
    assert_eq!(check_upload_name(Some("a.b.md")), Ok("a.b.md".to_string()));
}

#[test]
fn errors_are_answered() {
    assert_eq!(IngestError::NoFilename.status_code(), 400);
    assert_eq!(IngestError::NoFilename.message(), "No filename provided");
    assert_eq!(IngestError::UnsupportedFileType.status_code(), 415);
    assert_eq!(
        IngestError::UnsupportedFileType.message(),
        "Unsupported file type. Only PDF (.pdf) and Markdown (.md) files are accepted."
    );
    assert_eq!(IngestError::ReadFailed.status_code(), 500);
    assert_eq!(IngestError::ReadFailed.message(), "Failed to read uploaded file");
    assert_eq!(IngestError::StoreFailed.status_code(), 500);
    assert_eq!(
        IngestError::StoreFailed.message(),
        "Failed to store embeddings in Qdrant. Is Qdrant running?"
    );
    assert_eq!(IngestError::NoFileUploaded.status_code(), 400);
    assert_eq!(IngestError::NoFileUploaded.message(), "No file uploaded");
}
