//! Byte-level and SentencePiece BPE tokenization.

pub mod batch;
pub mod bpe;
pub mod bpe_train;
pub mod byte_map;
pub mod encode;
pub mod input;
pub mod lex;
pub mod load_tokenizer;
pub mod pretokenize;
pub mod search;
pub mod sentencepiece;
pub mod seqs;
pub mod string_laws;
pub mod strings;
pub mod text;
pub mod token;
pub mod utils;
