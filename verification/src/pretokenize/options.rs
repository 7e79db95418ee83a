//! Pretokenization schemes.

use vstd::prelude::*;

use crate::strings::text_is;

verus! {

/// A pretokenization scheme.
#[derive(Debug, Clone, Copy, PartialEq, Eq, Structural)]
pub enum PretokenizerType {
    /// Also used by llama, also known as r50k.
    GPT2,
    GPT4,
    /// Slightly adapted from GPT4, also used by Qwen3.
    Qwen2,
    /// o200k, also used by GPT-4o.
    DeepSeekV3,
    /// The scheme of the Kimi and Moonlight repositories.
    Kimi,
}

/// The scheme whose `Split` regexes, in order, are these.
pub open spec fn scheme_of(regexes: Seq<Seq<char>>) -> Option<PretokenizerType> {
    if regexes.len() == 1 && regexes[0]
        == "'(?:[sdmt]|ll|ve|re)| ?\\p{L}+| ?\\p{N}+| ?[^\\s\\p{L}\\p{N}]+|\\s+(?!\\S)|\\s+"@ {
        Some(PretokenizerType::GPT2)
    } else {
        None
    }
}

/// The texts of a list of strings.
pub open spec fn texts(v: Seq<String>) -> Seq<Seq<char>> {
    v.map_values(|s: String| s@)
}

impl PretokenizerType {
    /// The scheme whose `Split` regexes, in order, are these, where there is a
    /// pretokenizer for it.
    pub fn from_split_regexes(regexes: &[String]) -> (r: Option<Self>)
        ensures
            r == scheme_of(texts(regexes@)),
    {
        if regexes.len() == 1 && text_is(
            regexes[0].as_str(),
            "'(?:[sdmt]|ll|ve|re)| ?\\p{L}+| ?\\p{N}+| ?[^\\s\\p{L}\\p{N}]+|\\s+(?!\\S)|\\s+",
        ) {
            Some(PretokenizerType::GPT2)
        } else {
            None
        }
    }
}

} // verus!
