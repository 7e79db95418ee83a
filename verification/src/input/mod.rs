//! Documents from byte buffers and files.

pub mod counting;
pub mod documents;
pub mod frequencies;
pub mod laws;
pub mod json_counting;
pub mod jsonl;
pub mod file_source;
pub mod separator;
pub mod text_laws;
