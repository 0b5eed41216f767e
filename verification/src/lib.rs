//! The verified core of Snout, a local file search: text chunking, file-kind detection
//! and text extraction, indexing decisions, and ranking of search results.

pub mod chunk_laws;
pub mod chunker;
pub mod extract;
pub mod extract_laws;
pub mod paths;
pub mod text;
pub mod indexer;
pub mod ranking;
pub mod vectors;
pub mod hybrid;
