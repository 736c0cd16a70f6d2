use rsearch::{analyze, Index, IndexError, IndexWriter, IndexWriterError};

#[test]
fn write_with_no_documents() -> Result<(), IndexWriterError> {
    let idx = IndexWriter::default();
    let buf = idx.write()?;

    // No postings (4 bytes) no docs (4 bytes)
    assert_eq!(&[0; 8], &buf[..]);

    Ok(())
}

#[test]
fn write_with_one_doc_and_one_term() -> Result<(), IndexWriterError> {
    let mut index = IndexWriter::default();
    index.add(analyze("foo".to_string()));

    let buf = index.write()?;

    assert_eq!(
        &[
            0, 0, 0, 1, // One posting
            0, 3, // Three letters
            b'f', b'o', b'o', 0, 0, 0, 1, // One doc_id
            0, 0, 0, 0, // Doc 0
            0, 0, 0, 1, // One doc
            0, 0, 0, 3, // Length of first doc
            b'f', b'o', b'o' // The doc content
        ],
        &buf[..]
    );

    Ok(())
}

#[test]
fn read_with_one_doc_and_term() -> Result<(), IndexError> {
    let buf =
        // One term in the postings list: foo
        [0, 0, 0, 1,
            0, 3,
            b'f', b'o', b'o',
        // To one doc, doc_id 0
            0, 0, 0, 1, 0, 0, 0, 0,
        // One stored doc, of length 3
         0, 0, 0, 1,
        // Doc length 3
            0, 0, 0, 3,
        // And the doc content
            b'f', b'o', b'o'];
    let index = Index::read(&buf)?;
    let mut expected_index = IndexWriter::default();
    expected_index.add(analyze("foo".to_string()));
    let expected_index = Index::from(expected_index);

    assert_eq!(expected_index, index);
    Ok(())
}

#[test]
fn empty_index_round_trip() {
    let bytes = IndexWriter::default().write().unwrap();
    assert_eq!(8, bytes.len());
    let index = Index::read(&bytes).unwrap();
    assert_eq!(Index::from(IndexWriter::default()), index);
}

#[test]
fn round_trip_preserves_index() {
    let mut writer = IndexWriter::default();
    writer.add(analyze("dogs and cats are super cool".to_string()));
    writer.add(analyze("but cats are better".to_string()));
    writer.add(analyze("no".to_string()));
    let bytes = writer.write().unwrap();
    let original = Index::from(writer);
    let reread = Index::read(&bytes).unwrap();
    assert_eq!(original, reread);
}

#[test]
fn search_after_read() {
    let mut writer = IndexWriter::default();
    writer.add(analyze("hello world".to_string()));
    writer.add(analyze("goodbye world".to_string()));
    let bytes = writer.write().unwrap();
    let index = Index::read(&bytes).unwrap();
    assert!(index.is_well_formed());
    assert_eq!(2, index.search("world").len());
    assert_eq!(1, index.search("hello").len());
}

#[test]
fn oversized_term_rejected_on_write() {
    // A term longer than the u16 wire width must fail encoding, not be
    // silently truncated.
    let mut writer = IndexWriter::default();
    let long_word = "a".repeat(70_000);
    writer.add(analyze(long_word));
    let result = writer.write();
    assert!(matches!(
        result,
        Err(IndexWriterError::UnableToDownCastTermLength { len: 70_000, .. })
    ));
}

#[test]
fn truncated_term_bytes_attributed() {
    // Cut off after the term-count field, inside the first term's bytes.
    let buf = [0, 0, 0, 1, 0, 3, b'f'];
    let result = Index::read(&buf);
    assert!(matches!(
        result,
        Err(IndexError::UnableToReadTerm { term_id: 0 })
    ));
}

#[test]
fn truncated_posting_list_size_attributed() {
    let result = Index::read(&[0, 0, 0]);
    assert!(matches!(
        result,
        Err(IndexError::UnableToReadPostingListSize)
    ));
    let empty: [u8; 0] = [];
    assert!(matches!(
        Index::read(&empty),
        Err(IndexError::UnableToReadPostingListSize)
    ));
}

#[test]
fn truncated_term_size_attributed() {
    let result = Index::read(&[0, 0, 0, 1, 0]);
    assert!(matches!(
        result,
        Err(IndexError::UnableToReadTermSize { term_id: 0 })
    ));
}

#[test]
fn truncated_doc_id_count_attributed() {
    let result = Index::read(&[0, 0, 0, 1, 0, 1, b'a', 0, 0]);
    match result {
        Err(IndexError::UnableToReadNumberOfDocIds { term, term_id }) => {
            assert_eq!("a", term);
            assert_eq!(0, term_id);
        }
        other => panic!("wrong attribution: {:?}", other),
    }
}

#[test]
fn truncated_doc_id_attributed() {
    let result = Index::read(&[0, 0, 0, 1, 0, 1, b'a', 0, 0, 0, 2, 0, 0, 0, 7, 0, 0]);
    match result {
        Err(IndexError::UnableToReadDocId {
            term,
            term_id,
            doc_index,
        }) => {
            assert_eq!("a", term);
            assert_eq!(0, term_id);
            assert_eq!(1, doc_index);
        }
        other => panic!("wrong attribution: {:?}", other),
    }
}

#[test]
fn truncated_doc_count_attributed() {
    let result = Index::read(&[0, 0, 0, 0]);
    assert!(matches!(result, Err(IndexError::UnableToReadNumberOfDocs)));
}

#[test]
fn truncated_doc_size_attributed() {
    let result = Index::read(&[0, 0, 0, 0, 0, 0, 0, 1]);
    assert!(matches!(
        result,
        Err(IndexError::UnableToReadDocSize { doc_id: 0 })
    ));
}

#[test]
fn truncated_doc_content_attributed() {
    let result = Index::read(&[0, 0, 0, 0, 0, 0, 0, 1, 0, 0, 0, 2, b'h']);
    assert!(matches!(
        result,
        Err(IndexError::UnableToReadDocContent { doc_id: 0 })
    ));
}

#[test]
fn invalid_utf8_term_attributed() {
    let result = Index::read(&[0, 0, 0, 1, 0, 1, 0xFF]);
    assert!(matches!(
        result,
        Err(IndexError::UnableToReadTerm { term_id: 0 })
    ));
}

#[test]
fn invalid_utf8_content_attributed() {
    let result = Index::read(&[0, 0, 0, 0, 0, 0, 0, 1, 0, 0, 0, 1, 0xFF]);
    assert!(matches!(
        result,
        Err(IndexError::UnableToReadDocContent { doc_id: 0 })
    ));
}

#[test]
fn zero_count_sections_are_valid() {
    // Zero terms and zero documents decode to an empty index, not an error.
    let index = Index::read(&[0, 0, 0, 0, 0, 0, 0, 0]).unwrap();
    assert_eq!(Index::from(IndexWriter::default()), index);
}

#[test]
fn out_of_range_doc_id_detected() {
    // A parseable file whose posting points past the document list decodes,
    // but the result fails the well-formedness check the query path needs.
    let buf = [
        0, 0, 0, 1, // one term
        0, 1, b'a', // "a"
        0, 0, 0, 1, // one doc id
        0, 0, 0, 5, // doc id 5
        0, 0, 0, 0, // zero documents
    ];
    let index = Index::read(&buf).unwrap();
    assert!(!index.is_well_formed());
}

#[test]
fn round_trip_preserves_non_ascii_content() {
    let mut writer = IndexWriter::default();
    writer.add(analyze("Ärger ist übel".to_string()));
    let bytes = writer.write().unwrap();
    let original = Index::from(writer);
    let reread = Index::read(&bytes).unwrap();
    assert_eq!(original, reread);
    assert_eq!("Ärger ist übel", reread.search("übel")[0].content);
}

#[test]
fn write_multibyte_term_uses_byte_length() {
    // "ü" is one character but two UTF-8 bytes; the length fields count
    // bytes.
    let mut writer = IndexWriter::default();
    writer.add(analyze("ü".to_string()));
    let bytes = writer.write().unwrap();
    assert_eq!(
        &[
            0, 0, 0, 1, // one term
            0, 2, // two term bytes
            0xC3, 0xBC, // "ü"
            0, 0, 0, 1, // one doc id
            0, 0, 0, 0, // doc id 0
            0, 0, 0, 1, // one document
            0, 0, 0, 2, // two content bytes
            0xC3, 0xBC, // "ü"
        ],
        &bytes[..]
    );
}
