//! Lexical retrieval core: a Unicode-aware word tokenizer, overlapping
//! sliding-window text chunkers (character-based and token-based), and a
//! BM25 keyword ranking index over a fixed collection of document strings.

pub mod bm25;
pub mod chunker;
pub mod score;
pub mod tokenizer;
