//! BPE training: learning merges from word counts.

pub mod corpus;
pub mod corpus_laws;
pub mod counts;
pub mod index;
pub mod laws;
pub mod order;
pub mod pairs;
pub mod queue;
pub mod train;
pub mod word;
pub mod tie;
