use semantic_search::database::Database;
use semantic_search::index_pdf::{index_document, IndexOutcome, IndexedDocument};
use semantic_search::search_index::resolve_matches;
use semantic_search::vector_index::VectorIndexState;
use usearch::{Index, IndexOptions, MetricKind, ScalarKind};

const DIMS: usize = 8;

/// A deterministic toy embedding: a character histogram over `DIMS` buckets.
fn fake_embedding(text: &str) -> Vec<f32> {
    let mut v = vec![0.0f32; DIMS];
    for (i, b) in text.bytes().enumerate() {
        v[(b as usize + i) % DIMS] += 1.0;
    }
    v
}

fn indexed_fixture() -> (Database, IndexedDocument, Index) {
    let mut db = Database::new();
    let mut vkeys = VectorIndexState::new();
    let pages = vec![String::from("aaaaabbbbbccccc"), String::from("dddddeeeee")];
    let rep = match index_document(&mut db, &mut vkeys, "/tmp/doc.pdf", &pages, 5, 5, 256).unwrap()
    {
        IndexOutcome::Indexed(rep) => rep,
        IndexOutcome::Skipped => panic!("expected the document to be indexed"),
    };
    let mut options = IndexOptions::default();
    options.dimensions = DIMS;
    options.metric = MetricKind::Cos;
    options.quantization = ScalarKind::F32;
    let index = Index::new(&options).unwrap();
    index.reserve(16).unwrap();
    for batch in &rep.batches {
        for (t, id) in batch.chunk_ids.iter().enumerate() {
            index.add(*id as u64, &fake_embedding(&batch.texts[t])).unwrap();
        }
    }
    (db, rep, index)
}

#[test]
fn test_round_trip_stored_embedding() {
    let (db, rep, index) = indexed_fixture();
    // the vector index holds exactly the five chunk keys
    assert_eq!(index.size(), 5);
    for batch in &rep.batches {
        for (t, id) in batch.chunk_ids.iter().enumerate() {
            // searching for a chunk's exact stored embedding returns that
            // chunk's identifier as the top result, at distance ~ 0
            let m = index.search(&fake_embedding(&batch.texts[t]), 1).unwrap();
            assert_eq!(m.keys[0], *id as u64);
            assert!(m.distances[0].abs() < 1e-4);
            // and resolving that identifier returns the original location
            let resolved = resolve_matches(&db, &m.keys).unwrap();
            assert_eq!(resolved[0].path, "/tmp/doc.pdf");
            assert_eq!(resolved[0].text, batch.texts[t]);
        }
    }
}

#[test]
fn test_search_top_result_matches_source() {
    let (db, _rep, index) = indexed_fixture();
    // a query close to the embedding of chunk 3 ("ccccc", page 0)
    let mut q = fake_embedding("ccccc");
    q[0] += 0.05;
    let m = index.search(&q, 10).unwrap();
    let resolved = resolve_matches(&db, &m.keys).unwrap();
    assert_eq!(resolved[0].key, 3);
    assert_eq!(resolved[0].path, "/tmp/doc.pdf");
    assert_eq!(resolved[0].page_no, 0);
    assert_eq!(resolved[0].text, "ccccc");
}
