//! Encoding of many lines at once.

pub mod laws;
pub mod slots;
pub mod tiktoken_radix;
