//! Pretokenization: split documents into pretokens following a tokenizer's
//! pretokenization regex.

pub mod bits;
pub mod class_laws;
pub mod counts;
pub mod cuts;
pub mod gpt2;
pub mod keys;
pub mod mask;
pub mod mask_state;
pub mod nemotron;
pub mod nemotron_laws;
pub mod options;
pub mod pretoken;
pub mod pretoken_combinator;
pub mod pretoken_fast;
pub mod r50k;
pub mod regex_laws;
pub mod scan;
pub mod spans;
pub mod split;
pub mod swar;
pub mod transitions;
pub mod unicode;
pub mod word_masks;
