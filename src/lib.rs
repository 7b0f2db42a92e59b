//! Text chunking, tokenization and word-vector table handling.
//!
//! - `text`: whitespace, words and their normalization.
//! - `chunking`: sentence scanning, hard splitting and chunking of documents.
//! - `tokens`: query tokenization with a stop-word list.
//! - `table`: the word-vector table format, its rows and token lookup.
//! - `saver`: numbering of saved chunks.

pub mod text;
pub mod chunking;
pub mod tokens;
pub mod table;
pub mod saver;
