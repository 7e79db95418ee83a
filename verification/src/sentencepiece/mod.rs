//! SentencePiece BPE with byte fallback.

pub mod bpe;
pub mod charsmap;
pub mod encoder;
pub mod laws;
pub mod matching;
pub mod model;
pub mod text_laws;
pub mod unit_laws;
pub mod utf8_states;
pub mod walk;
