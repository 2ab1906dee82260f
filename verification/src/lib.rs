//! A verified core for a semantic document-search pipeline: grapheme-safe
//! sliding-window chunking, a relational metadata store, a model of the
//! vector-index key space, the indexing orchestrator that keeps the two
//! stores consistent, and the retrieval-time join.

pub mod chunk_text;
pub mod database;
pub mod generate_embeddings;
pub mod graphemes;
pub mod index_pdf;
pub mod search_index;
pub mod vector_index;
