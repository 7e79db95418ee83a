//! The fields of a `tokenizer.json` file, and what can be wrong with them.

use vstd::prelude::*;
use vstd::utf8::encode_utf8;

use crate::pretokenize::options::texts;

verus! {

/// A `tokenizer.json` file.
pub struct TokenizerJson {
    pub model: Model,
    pub added_tokens: Vec<AddedToken>,
    pub pre_tokenizer: Option<PreTokenizerJson>,
    pub normalizer: Option<NormalizerJson>,
}

/// A `normalizer`.
pub struct NormalizerJson {
    pub kind: String,
    pub normalizers: Vec<NormalizerJson>,
    /// `Prepend` normalizer: the prefix (Llama 2's "▁").
    pub prepend: Option<String>,
    /// `Replace` normalizer: pattern and replacement content.
    pub pattern: Option<PatternJson>,
    pub content: Option<String>,
    /// `Strip` normalizer sides.
    pub strip_left: Option<bool>,
    pub strip_right: Option<bool>,
    /// `Precompiled` normalizer: base64-encoded sentencepiece charsmap.
    pub precompiled_charsmap: Option<String>,
}

/// A `pre_tokenizer`.
pub struct PreTokenizerJson {
    pub kind: String,
    pub pretokenizers: Vec<PreTokenizerJson>,
    pub pattern: Option<PatternJson>,
    /// `Metaspace` fields. `add_prefix_space` is the pre-0.15 spelling of
    /// `prepend_scheme`.
    pub replacement: Option<String>,
    pub prepend_scheme: Option<String>,
    pub add_prefix_space: Option<bool>,
    pub split: Option<bool>,
}

/// A `pattern`: a regex or a literal.
pub struct PatternJson {
    pub regex: Option<String>,
    pub literal: Option<String>,
}

/// A `model`. A pretoken that is a whole vocabulary entry always encodes as that entry,
/// whatever `ignore_merges` says.
pub struct Model {
    /// Files written before tokenizers 0.9 (e.g. the original GPT-2 upload)
    /// omit it; those are always BPE.
    pub model_type: Option<String>,
    /// The ids of strings, in any order.
    pub vocab: Vec<(String, u32)>,
    /// The pairs that merge, the most urgent first.
    pub merges: Vec<(String, String)>,
    pub byte_fallback: bool,
}

/// An entry of `added_tokens`.
pub struct AddedToken {
    pub id: u32,
    pub content: String,
    pub lstrip: bool,
    pub rstrip: bool,
    pub normalized: bool,
}

/// Why a file gives no tokenizer.
pub enum LoadError {
    UnsupportedModelType(String),
    /// A SentencePiece tokenizer needs `byte_fallback`.
    NotByteFallback,
    /// A ByteLevel tokenizer must not have `byte_fallback`.
    IsByteFallback,
    /// `byte_fallback` is set, but the vocabulary has no `<0xHH>` byte tokens.
    NoByteTokens,
    /// A byte value that can appear in valid UTF-8 has no single-byte token.
    MissingByte(u8),
    UnsupportedNormalizer(String),
    PrependWithoutPrefix,
    ReplaceWithoutContent,
    ReplaceWithoutPattern,
    UnsupportedReplaceRegex(String),
    PrecompiledWithoutCharsmap,
    CharsmapNotBase64,
    /// A charsmap holds fewer units than it says, or its texts are not valid
    /// UTF-8.
    CharsmapNotParsed,
    /// A character of ASCII, or CR LF, cannot be looked up in a charsmap.
    CharsmapUnsound,
    UnsupportedPreTokenizer(String),
    UnsupportedMetaspaceReplacement(String),
    UnsupportedPrependScheme(String),
    UnknownSplitRegexes(Vec<String>),
}

/// What is wrong with a file.
#[verifier::ext_equal]
pub enum Fault {
    UnsupportedModelType(Seq<char>),
    NotByteFallback,
    IsByteFallback,
    NoByteTokens,
    MissingByte(u8),
    UnsupportedNormalizer(Seq<char>),
    PrependWithoutPrefix,
    ReplaceWithoutContent,
    ReplaceWithoutPattern,
    UnsupportedReplaceRegex(Seq<char>),
    PrecompiledWithoutCharsmap,
    CharsmapNotBase64,
    CharsmapNotParsed,
    CharsmapUnsound,
    UnsupportedPreTokenizer(Seq<char>),
    UnsupportedMetaspaceReplacement(Seq<char>),
    UnsupportedPrependScheme(Seq<char>),
    UnknownSplitRegexes(Seq<Seq<char>>),
}

impl View for LoadError {
    type V = Fault;

    open spec fn view(&self) -> Fault {
        match *self {
            LoadError::UnsupportedModelType(s) => Fault::UnsupportedModelType(s@),
            LoadError::NotByteFallback => Fault::NotByteFallback,
            LoadError::IsByteFallback => Fault::IsByteFallback,
            LoadError::NoByteTokens => Fault::NoByteTokens,
            LoadError::MissingByte(b) => Fault::MissingByte(b),
            LoadError::UnsupportedNormalizer(s) => Fault::UnsupportedNormalizer(s@),
            LoadError::PrependWithoutPrefix => Fault::PrependWithoutPrefix,
            LoadError::ReplaceWithoutContent => Fault::ReplaceWithoutContent,
            LoadError::ReplaceWithoutPattern => Fault::ReplaceWithoutPattern,
            LoadError::UnsupportedReplaceRegex(s) => Fault::UnsupportedReplaceRegex(s@),
            LoadError::PrecompiledWithoutCharsmap => Fault::PrecompiledWithoutCharsmap,
            LoadError::CharsmapNotBase64 => Fault::CharsmapNotBase64,
            LoadError::CharsmapNotParsed => Fault::CharsmapNotParsed,
            LoadError::CharsmapUnsound => Fault::CharsmapUnsound,
            LoadError::UnsupportedPreTokenizer(s) => Fault::UnsupportedPreTokenizer(s@),
            LoadError::UnsupportedMetaspaceReplacement(s) =>
                Fault::UnsupportedMetaspaceReplacement(s@),
            LoadError::UnsupportedPrependScheme(s) => Fault::UnsupportedPrependScheme(s@),
            LoadError::UnknownSplitRegexes(v) => Fault::UnknownSplitRegexes(texts(v@)),
        }
    }
}

/// The UTF-8 of a string.
pub open spec fn utf8(s: String) -> Seq<u8> {
    encode_utf8(s@)
}

} // verus!
