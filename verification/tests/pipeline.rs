use semantic_search::chunk_text::chunk_spans;
use semantic_search::database::{spans_from_offsets, Database, StoreError};
use semantic_search::generate_embeddings::embedding_input;
use semantic_search::index_pdf::{index_document, IndexError, IndexOutcome};
use semantic_search::search_index::{resolve_matches, SearchError};
use semantic_search::vector_index::{VectorIndexState, VectorIndexError};

#[test]
fn test_insert_and_get_document() {
    let mut db = Database::new();
    let doc_id = db.insert_document("/tmp/a.pdf").unwrap();
    assert_eq!(doc_id, 1);
    let page_id = db.insert_page(doc_id, 0, "This is a test.").unwrap();
    assert_eq!(page_id, 1);
    let spans = chunk_spans("This is a test.", 5, 5);
    let ids = db.insert_chunks(page_id, &spans).unwrap();
    assert_eq!(ids, vec![1, 2, 3]);
    let (path, page_no, text) = db.get_document(2).unwrap();
    assert_eq!(path, "/tmp/a.pdf");
    assert_eq!(page_no, 0);
    assert_eq!(text, "is a ");
}

#[test]
fn test_duplicate_path_rejected() {
    let mut db = Database::new();
    db.insert_document("/tmp/a.pdf").unwrap();
    assert_eq!(
        db.insert_document("/tmp/a.pdf"),
        Err(StoreError::DuplicatePath)
    );
    assert_eq!(db.document_count(), 1);
}

#[test]
fn test_missing_document_and_page() {
    let mut db = Database::new();
    assert_eq!(
        db.insert_page(1, 0, "text"),
        Err(StoreError::MissingDocument)
    );
    let spans = chunk_spans("text", 2, 2);
    assert_eq!(db.insert_chunks(1, &spans), Err(StoreError::MissingPage));
}

#[test]
fn test_get_document_not_found() {
    let db = Database::new();
    assert_eq!(db.get_document(1), Err(StoreError::NotFound));
    assert_eq!(db.get_document(0), Err(StoreError::NotFound));
}

#[test]
fn test_document_exists() {
    let mut db = Database::new();
    assert!(!db.document_exists("/tmp/a.pdf"));
    db.insert_document("/tmp/a.pdf").unwrap();
    assert!(db.document_exists("/tmp/a.pdf"));
    assert!(!db.document_exists("/tmp/b.pdf"));
}

#[test]
fn test_vector_index_capacity_is_explicit() {
    let mut v = VectorIndexState::new();
    assert_eq!(v.add(1), Err(VectorIndexError::CapacityExhausted));
    v.reserve(2);
    assert_eq!(v.add(1), Ok(()));
    assert_eq!(v.add(2), Ok(()));
    assert_eq!(v.add(3), Err(VectorIndexError::CapacityExhausted));
    assert_eq!(v.len(), 2);
    assert!(v.contains(1));
    assert!(v.contains(2));
    assert!(!v.contains(3));
}

#[test]
fn test_invalid_arguments_rejected() {
    let mut db = Database::new();
    let mut v = VectorIndexState::new();
    let pages = vec![String::from("some text")];
    match index_document(&mut db, &mut v, "/tmp/a.pdf", &pages, 0, 5, 256) {
        Err(IndexError::InvalidChunkSize) => {}
        _ => panic!("expected InvalidChunkSize"),
    }
    match index_document(&mut db, &mut v, "/tmp/a.pdf", &pages, 10, 0, 256) {
        Err(IndexError::InvalidStride) => {}
        _ => panic!("expected InvalidStride"),
    }
    match index_document(&mut db, &mut v, "/tmp/a.pdf", &pages, 10, 5, 0) {
        Err(IndexError::InvalidBatchSize) => {}
        _ => panic!("expected InvalidBatchSize"),
    }
    assert_eq!(db.document_count(), 0);
    assert_eq!(v.len(), 0);
}

#[test]
fn test_two_page_document_counts() {
    // page 0 yields 3 chunks, page 1 yields 2 chunks
    let mut db = Database::new();
    let mut v = VectorIndexState::new();
    let pages = vec![String::from("aaaaabbbbbccccc"), String::from("dddddeeeee")];
    let rep = match index_document(&mut db, &mut v, "/tmp/doc.pdf", &pages, 5, 5, 256).unwrap() {
        IndexOutcome::Indexed(rep) => rep,
        IndexOutcome::Skipped => panic!("expected the document to be indexed"),
    };
    assert_eq!(rep.document_id, 1);
    assert_eq!(db.document_count(), 1);
    assert_eq!(db.page_count(), 2);
    assert_eq!(db.chunk_count(), 5);
    assert_eq!(v.len(), 5);
    for k in 0..5 {
        assert_eq!(v.key_at(k), (k + 1) as u64);
        assert!(v.contains((k + 1) as u64));
    }
    // one batch per page at this batch size
    assert_eq!(rep.batches.len(), 2);
    assert_eq!(rep.batches[0].page_no, 0);
    assert_eq!(rep.batches[1].page_no, 1);
    assert_eq!(rep.batches[0].chunk_ids, vec![1, 2, 3]);
    assert_eq!(rep.batches[1].chunk_ids, vec![4, 5]);
    assert_eq!(rep.batches[0].texts, vec!["aaaaa", "bbbbb", "ccccc"]);
    assert_eq!(rep.batches[1].texts, vec!["ddddd", "eeeee"]);
}

#[test]
fn test_reindexing_is_skipped() {
    let mut db = Database::new();
    let mut v = VectorIndexState::new();
    let pages = vec![String::from("aaaaabbbbbccccc"), String::from("dddddeeeee")];
    match index_document(&mut db, &mut v, "/tmp/doc.pdf", &pages, 5, 5, 256).unwrap() {
        IndexOutcome::Indexed(_) => {}
        IndexOutcome::Skipped => panic!("first run must index"),
    }
    match index_document(&mut db, &mut v, "/tmp/doc.pdf", &pages, 5, 5, 256).unwrap() {
        IndexOutcome::Skipped => {}
        IndexOutcome::Indexed(_) => panic!("second run must be skipped"),
    }
    // exactly one document row, no duplicated pages, chunks or vector entries
    assert_eq!(db.document_count(), 1);
    assert_eq!(db.page_count(), 2);
    assert_eq!(db.chunk_count(), 5);
    assert_eq!(v.len(), 5);
}

#[test]
fn test_batches_are_bounded() {
    let mut db = Database::new();
    let mut v = VectorIndexState::new();
    // one page with 5 chunks, grouped into batches of at most 2
    let pages = vec![String::from("aaaaabbbbbcccccdddddeeeee")];
    let rep = match index_document(&mut db, &mut v, "/tmp/doc.pdf", &pages, 5, 5, 2).unwrap() {
        IndexOutcome::Indexed(rep) => rep,
        IndexOutcome::Skipped => panic!("expected the document to be indexed"),
    };
    assert_eq!(rep.batches.len(), 3);
    assert_eq!(rep.batches[0].chunk_ids, vec![1, 2]);
    assert_eq!(rep.batches[1].chunk_ids, vec![3, 4]);
    assert_eq!(rep.batches[2].chunk_ids, vec![5]);
    assert_eq!(rep.batches[2].texts, vec!["eeeee"]);
    assert!(rep.batches.iter().all(|b| b.page_no == 0));
}

#[test]
fn test_round_trip_chunk_resolution() {
    // every chunk identifier handed out for embedding resolves back to the
    // source path, page number and exact chunk text
    let mut db = Database::new();
    let mut v = VectorIndexState::new();
    let pages = vec![String::from("This is a sample text for chunking."), String::from("second page here")];
    let rep = match index_document(&mut db, &mut v, "/tmp/doc.pdf", &pages, 10, 5, 256).unwrap() {
        IndexOutcome::Indexed(rep) => rep,
        IndexOutcome::Skipped => panic!("expected the document to be indexed"),
    };
    for batch in rep.batches.iter() {
        for (t, id) in batch.chunk_ids.iter().enumerate() {
            let (path, page_no, text) = db.get_document(*id as u64).unwrap();
            assert_eq!(path, "/tmp/doc.pdf");
            assert_eq!(page_no, batch.page_no);
            assert_eq!(text, batch.texts[t]);
        }
    }
}

#[test]
fn test_resolve_matches_in_order() {
    let mut db = Database::new();
    let mut v = VectorIndexState::new();
    let pages = vec![String::from("aaaaabbbbbccccc")];
    match index_document(&mut db, &mut v, "/tmp/doc.pdf", &pages, 5, 5, 256).unwrap() {
        IndexOutcome::Indexed(_) => {}
        IndexOutcome::Skipped => panic!("first run must index"),
    }
    let keys = vec![3u64, 1u64];
    let out = resolve_matches(&db, &keys).unwrap();
    assert_eq!(out.len(), 2);
    assert_eq!(out[0].key, 3);
    assert_eq!(out[0].text, "ccccc");
    assert_eq!(out[1].key, 1);
    assert_eq!(out[1].text, "aaaaa");
    assert_eq!(out[0].path, "/tmp/doc.pdf");
    assert_eq!(out[0].page_no, 0);
}

#[test]
fn test_resolve_matches_surfaces_consistency_violation() {
    let mut db = Database::new();
    let mut v = VectorIndexState::new();
    let pages = vec![String::from("aaaaabbbbbccccc")];
    match index_document(&mut db, &mut v, "/tmp/doc.pdf", &pages, 5, 5, 256).unwrap() {
        IndexOutcome::Indexed(_) => {}
        IndexOutcome::Skipped => panic!("first run must index"),
    }
    // key 9 has no metadata row: reported, not silently skipped
    let keys = vec![1u64, 9u64, 2u64];
    match resolve_matches(&db, &keys) {
        Err(SearchError::ConsistencyViolation(key)) => assert_eq!(key, 9),
        _ => panic!("expected a consistency violation for key 9"),
    }
    // an empty key list is an empty result, not an error
    let empty: Vec<u64> = Vec::new();
    assert_eq!(resolve_matches(&db, &empty).unwrap().len(), 0);
}

#[test]
fn test_spans_from_offsets_validates() {
    // each of the seven characters takes three bytes in UTF-8
    let text = "こんにちは世界";
    // a valid quadruple: bytes (3, 9) correspond to characters (1, 3)
    let spans = spans_from_offsets(text, &vec![(3, 9, 1, 3)]).unwrap();
    assert_eq!(spans.len(), 1);
    assert_eq!((spans[0].start, spans[0].end), (3, 9));
    assert_eq!((spans[0].char_start, spans[0].char_end), (1, 3));
    // byte offsets that do not match the character prefix are rejected
    assert!(spans_from_offsets(text, &vec![(1, 9, 1, 3)]).is_none());
    // reversed or out-of-range character offsets are rejected
    assert!(spans_from_offsets(text, &vec![(9, 3, 3, 1)]).is_none());
    assert!(spans_from_offsets(text, &vec![(3, 9, 1, 99)]).is_none());
}

#[test]
fn test_embedding_input_prefix() {
    assert_eq!(
        embedding_input("hello"),
        "Represent this sentence for searching relevant passages: hello"
    );
    assert_eq!(
        embedding_input(""),
        "Represent this sentence for searching relevant passages: "
    );
}
