//! Byte-pair encoding.

pub mod added;
pub mod apart;
pub mod encoding_laws;
pub mod fragments;
pub mod heap;
pub mod laws;
pub mod merge;
pub mod model;
pub mod permutation;
pub mod pretoken_cache;
pub mod rank_laws;
pub mod ranked;
pub mod remap;
pub mod round_trip;
pub mod symbols;
pub mod tiktoken;
pub mod values;
pub mod vocab;
pub mod words;
