//! Chunked batch encoding: documents are grouped into coarse chunks (an oversized
//! document is split at pretoken-safe boundaries), encoded chunk by chunk, and
//! reassembled into one flat id buffer plus per-document row lengths.

pub mod chunks;
pub mod row_laws;
pub mod rows;
pub mod gather;
pub mod encode;
pub mod laws;
pub mod ragged;
pub mod sp;
pub mod padding;
pub mod padding_laws;
pub mod matcher;
