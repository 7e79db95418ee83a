//! Tokenizers from the files that describe them.

pub mod bpe_laws;
pub mod byte_level;
pub mod config;
pub mod config_laws;
pub mod entries;
pub mod file_laws;
pub mod hf;
pub mod laws;
pub mod merge_laws;
pub mod merges;
pub mod normalizer;
pub mod rank_laws;
pub mod tiktoken;
pub mod vocab_laws;
