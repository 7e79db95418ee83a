//! Tokenizer files.

use base64::Engine;
use gigatoken::bpe::tiktoken::{RanksError, Tokenizer};
use gigatoken::load_tokenizer::byte_level::{build_byte_unicode_tables, unicode_to_bytes};
use gigatoken::load_tokenizer::config::{
    AddedToken, LoadError, Model, NormalizerJson, PatternJson, PreTokenizerJson, TokenizerJson,
};
use gigatoken::load_tokenizer::hf::{
    byte_fallback_ids, load_hf_bpe, load_hf_sentencepiece, load_hf_slice, parse_byte_fallback,
    token_str_to_bytes, HfTokenizer,
};
use gigatoken::load_tokenizer::merges::{merge_pairs, split_merge, MergeEntry};
use gigatoken::load_tokenizer::normalizer::{
    detect_nfc_normalizer, detect_pretokenizer_type, parse_sp_metaspace, parse_sp_normalizer,
};
use gigatoken::load_tokenizer::tiktoken::{
    load_kimi, load_tiktoken, load_tiktoken_ranks, parse_u32, TiktokenError,
};
use gigatoken::pretokenize::options::PretokenizerType;
use gigatoken::sentencepiece::model::{Metaspace, PrependScheme};
use gigatoken::token::TokenId;

#[test]
fn test_token_str_to_bytes() {
    assert_eq!(token_str_to_bytes("<0x00>"), vec![0x00]);
    assert_eq!(token_str_to_bytes("<0xFF>"), vec![0xFF]);
    assert_eq!(token_str_to_bytes("<0x0A>"), vec![0x0A]);
    assert_eq!(token_str_to_bytes("hello"), b"hello".to_vec());
    assert_eq!(token_str_to_bytes("▁the"), "▁the".as_bytes().to_vec());
    assert_eq!(token_str_to_bytes("▁"), "▁".as_bytes().to_vec());
    assert_eq!(token_str_to_bytes("<unk>"), b"<unk>".to_vec());
    assert_eq!(token_str_to_bytes("<s>"), b"<s>".to_vec());
}

fn model(vocab: Vec<(String, u32)>, merges: &[(&str, &str)], byte_fallback: bool) -> Model {
    Model {
        model_type: Some("BPE".to_string()),
        vocab,
        merges: merges.iter().map(|(a, b)| (a.to_string(), b.to_string())).collect(),
        byte_fallback,
    }
}

fn file(model: Model) -> TokenizerJson {
    TokenizerJson { model, added_tokens: vec![], pre_tokenizer: None, normalizer: None }
}

#[test]
fn test_parse_legacy_model_without_type() {
    // Files without a type are BPE.
    let mut m = model(vec![("a".to_string(), 0)], &[], false);
    m.model_type = None;
    assert!(matches!(load_hf_bpe(&file(m)), Err(LoadError::MissingByte(_))));
    let mut m = byte_level_model();
    m.model_type = None;
    assert!(load_hf_bpe(&file(m)).is_ok());
}

/// The printable char of each byte.
fn alphabet() -> Vec<char> {
    build_byte_unicode_tables().0.iter().map(|&c| char::from_u32(c).unwrap()).collect()
}

fn byte_level_model() -> Model {
    let mut vocab: Vec<(String, u32)> =
        alphabet().iter().enumerate().map(|(b, c)| (c.to_string(), b as u32)).collect();
    vocab.push(("he".to_string(), 256));
    vocab.push(("Ġhe".to_string(), 257));
    model(vocab, &[("h", "e"), ("Ġ", "he")], false)
}

fn encode(t: &mut Tokenizer, text: &str) -> Vec<u32> {
    let mut out = Vec::new();
    t.encode_with_added_tokens_flat(text.as_bytes(), &mut out);
    out
}

#[test]
fn byte_level_alphabet_goes_back() {
    let (to, from) = build_byte_unicode_tables();
    assert_eq!(to[b'!' as usize], '!' as u32);
    assert_eq!(to[0], 0x100);
    assert_eq!(to[b' ' as usize], 'Ġ' as u32);
    for b in 0..256usize {
        assert_eq!(from[to[b] as usize], Some(b as u8));
    }
    assert_eq!(unicode_to_bytes("Ġhe", &from), b" he");
    assert_eq!(unicode_to_bytes("日", &from), "日".as_bytes());
}

#[test]
fn byte_level_files_load() {
    let mut tj = file(byte_level_model());
    tj.added_tokens.push(AddedToken {
        id: 300,
        content: "<end>".to_string(),
        lstrip: false,
        rstrip: false,
        normalized: false,
    });
    let mut t = load_hf_bpe(&tj).ok().unwrap();
    assert_eq!(encode(&mut t, "he he<end>h"), [256, 257, 300, 104]);
    assert_eq!(t.decode(&[TokenId(256), TokenId(300)]), b"he<end>");
    for text in ["he he<end>h", "héllo, wörld  \n<end><end>", ""] {
        let tokens: Vec<TokenId> = encode(&mut t, text).into_iter().map(TokenId).collect();
        assert_eq!(t.decode(&tokens), text.as_bytes());
    }
    assert!(matches!(load_hf_slice(&tj), Ok(HfTokenizer::Bpe(_))));
}

#[test]
fn files_of_the_other_style_are_refused() {
    let mut m = byte_level_model();
    m.model_type = Some("WordPiece".to_string());
    assert!(matches!(load_hf_bpe(&file(m)), Err(LoadError::UnsupportedModelType(s)) if s == "WordPiece"));
    let plain = file(byte_level_model());
    assert!(matches!(load_hf_sentencepiece(&plain), Err(LoadError::NotByteFallback)));
    let mut m = byte_level_model();
    m.byte_fallback = true;
    let tj = file(m);
    assert!(matches!(load_hf_bpe(&tj), Err(LoadError::IsByteFallback)));
    assert!(matches!(load_hf_sentencepiece(&tj), Err(LoadError::NoByteTokens)));
    assert!(matches!(load_hf_slice(&tj), Err(LoadError::NoByteTokens)));
    let mut m = byte_level_model();
    m.vocab.retain(|e| e.0 != "Z");
    assert!(matches!(load_hf_bpe(&file(m)), Err(LoadError::MissingByte(b'Z'))));
}

fn normalizer(kind: &str) -> NormalizerJson {
    NormalizerJson {
        kind: kind.to_string(),
        normalizers: vec![],
        prepend: None,
        pattern: None,
        content: None,
        strip_left: None,
        strip_right: None,
        precompiled_charsmap: None,
    }
}

fn fault(n: &NormalizerJson) -> LoadError {
    parse_sp_normalizer(n, &mut Vec::new()).err().unwrap()
}

#[test]
fn normalizers_that_cannot_be_followed_are_refused() {
    assert!(matches!(fault(&normalizer("BertNormalizer")), LoadError::UnsupportedNormalizer(_)));
    assert!(matches!(fault(&normalizer("Prepend")), LoadError::PrependWithoutPrefix));
    assert!(matches!(fault(&normalizer("Replace")), LoadError::ReplaceWithoutContent));
    let mut replace = normalizer("Replace");
    replace.content = Some("x".to_string());
    assert!(matches!(fault(&replace), LoadError::ReplaceWithoutPattern));
    replace.pattern = Some(PatternJson { regex: Some("a+".to_string()), literal: None });
    assert!(matches!(fault(&replace), LoadError::UnsupportedReplaceRegex(r) if r == "a+"));
    replace.pattern = Some(PatternJson { regex: Some(" {2,}".to_string()), literal: None });
    assert!(parse_sp_normalizer(&replace, &mut Vec::new()).is_ok());
    let mut pre = normalizer("Precompiled");
    assert!(matches!(fault(&pre), LoadError::PrecompiledWithoutCharsmap));
    pre.precompiled_charsmap = Some("!".to_string());
    assert!(matches!(fault(&pre), LoadError::CharsmapNotBase64));
    pre.precompiled_charsmap = Some("AAEAAA==".to_string());
    assert!(matches!(fault(&pre), LoadError::CharsmapNotParsed));
    // One unit, which leads out of the trie.
    pre.precompiled_charsmap = Some("BAAAAAAE/38=".to_string());
    assert!(matches!(fault(&pre), LoadError::CharsmapUnsound));
}

#[test]
fn nfc_is_the_only_byte_level_normalizer() {
    assert!(matches!(detect_nfc_normalizer(&None), Ok(false)));
    assert!(matches!(detect_nfc_normalizer(&Some(normalizer("NFC"))), Ok(true)));
    assert!(matches!(
        detect_nfc_normalizer(&Some(normalizer("Lowercase"))),
        Err(LoadError::UnsupportedNormalizer(_))
    ));
}

fn pre(kind: &str) -> PreTokenizerJson {
    PreTokenizerJson {
        kind: kind.to_string(),
        pretokenizers: vec![],
        pattern: None,
        replacement: None,
        prepend_scheme: None,
        add_prefix_space: None,
        split: None,
    }
}

#[test]
fn metaspace_configs_are_read() {
    let read = |p: PreTokenizerJson| parse_sp_metaspace(&Some(p));
    assert!(matches!(parse_sp_metaspace(&None), Ok(None)));
    assert!(matches!(
        read(pre("Metaspace")),
        Ok(Some(Metaspace { prepend: PrependScheme::Always, split: true }))
    ));
    let old = PreTokenizerJson { add_prefix_space: Some(false), ..pre("Metaspace") };
    assert!(matches!(read(old), Ok(Some(Metaspace { prepend: PrependScheme::Never, .. }))));
    let odd = PreTokenizerJson { prepend_scheme: Some("last".to_string()), ..pre("Metaspace") };
    assert!(matches!(read(odd), Err(LoadError::UnsupportedPrependScheme(_))));
    let odd = PreTokenizerJson { replacement: Some("_".to_string()), ..pre("Metaspace") };
    assert!(matches!(read(odd), Err(LoadError::UnsupportedMetaspaceReplacement(_))));
    assert!(matches!(read(pre("Whitespace")), Err(LoadError::UnsupportedPreTokenizer(_))));
}

#[test]
fn split_regexes_name_the_scheme() {
    let gpt2 = r"'(?:[sdmt]|ll|ve|re)| ?\p{L}+| ?\p{N}+| ?[^\s\p{L}\p{N}]+|\s+(?!\S)|\s+";
    let split = |regex: &str| PreTokenizerJson {
        pattern: Some(PatternJson { regex: Some(regex.to_string()), literal: None }),
        ..pre("Split")
    };
    let seq = |parts: Vec<PreTokenizerJson>| {
        detect_pretokenizer_type(&Some(PreTokenizerJson { pretokenizers: parts, ..pre("Sequence") }))
    };
    assert!(matches!(detect_pretokenizer_type(&None), Ok(PretokenizerType::GPT2)));
    assert!(matches!(
        detect_pretokenizer_type(&Some(pre("ByteLevel"))),
        Ok(PretokenizerType::GPT2)
    ));
    assert!(matches!(seq(vec![split(gpt2), pre("ByteLevel")]), Ok(PretokenizerType::GPT2)));
    assert!(matches!(seq(vec![split("x")]), Err(LoadError::UnknownSplitRegexes(r)) if r == ["x"]));
    assert!(matches!(seq(vec![]), Err(LoadError::UnsupportedPreTokenizer(_))));
}

#[test]
fn byte_tokens_are_read() {
    assert_eq!(parse_byte_fallback("<0xa0>"), Some(0xA0));
    assert_eq!(parse_byte_fallback("<0xG0>"), None);
    assert_eq!(parse_byte_fallback("<0x+F>"), None);
    assert_eq!(parse_byte_fallback("<0x0>"), None);
    let ids = byte_fallback_ids(&[("<0x41>".to_string(), 7), ("x".to_string(), 8)]);
    assert_eq!(ids[0x41], Some(TokenId(7)));
    assert_eq!(ids[0x42], None);
    assert_eq!(ids.len(), 256);
}

#[test]
fn merges_come_in_two_spellings() {
    assert_eq!(split_merge("a b"), Some(("a".to_string(), "b".to_string())));
    assert_eq!(split_merge("é b c"), Some(("é".to_string(), "b c".to_string())));
    assert_eq!(split_merge("ab"), None);
    let entries = [
        MergeEntry::Pair("a".to_string(), "b c".to_string()),
        MergeEntry::Legacy("ab c".to_string()),
    ];
    let pairs = merge_pairs(&entries).unwrap();
    assert_eq!(pairs[0], ("a".to_string(), "b c".to_string()));
    assert_eq!(pairs[1], ("ab".to_string(), "c".to_string()));
    assert_eq!(merge_pairs(&[MergeEntry::Legacy("abc".to_string())]), Err(0));
}

fn base64(bytes: &[u8]) -> String {
    base64::engine::general_purpose::STANDARD.encode(bytes)
}

fn rank_file(words: &[&str]) -> String {
    let mut text = String::new();
    for b in 0..=255u8 {
        text.push_str(&format!("{} {}\n", base64(&[b]), b));
    }
    for (i, w) in words.iter().enumerate() {
        text.push_str(&format!("{} {}\n", base64(w.as_bytes()), 256 + i));
    }
    text
}

#[test]
fn rank_files_load() {
    let text = rank_file(&["he", "hel", " he"]);
    let ranks = load_tiktoken_ranks(&text).unwrap();
    assert_eq!(ranks.len(), 259);
    assert_eq!(ranks[258], b" he");
    let mut t = load_tiktoken(&text).ok().unwrap();
    assert_eq!(encode(&mut t, "hel he"), [257, 258]);
    let specials = [("300".to_string(), "<end>".to_string())];
    let kimi = load_kimi(&text, &specials).ok().unwrap();
    assert!(matches!(kimi.pretokenizer_type(), PretokenizerType::Kimi));
    assert_eq!(kimi.token_of(b"<end>"), Some(TokenId(300)));
    assert_eq!(parse_u32(b"4294967295"), Some(u32::MAX));
    assert_eq!(parse_u32(b"4294967296"), None);
    assert_eq!(parse_u32(b""), None);
}

#[test]
fn broken_rank_files_are_refused() {
    let ranks = |text: &str| load_tiktoken_ranks(text).err();
    assert_eq!(ranks("YQ=="), Some(TiktokenError::NoRank(0)));
    assert_eq!(ranks("YQ== x"), Some(TiktokenError::BadRank(0)));
    assert_eq!(ranks("YQ== 0\nYg== 2"), Some(TiktokenError::NotDense(1)));
    assert_eq!(ranks("!!! 0"), Some(TiktokenError::NotBase64(0)));
    assert_eq!(
        load_tiktoken(&rank_file(&["hel"])).err(),
        Some(TiktokenError::Ranks(RanksError::Unmergeable(256)))
    );
    let text = rank_file(&[]);
    let kimi = |id: &str| load_kimi(&text, &[(id.to_string(), "<end>".to_string())]).err();
    assert_eq!(kimi("x"), Some(TiktokenError::BadId(0)));
    assert_eq!(kimi("255"), Some(TiktokenError::Overlaps(0)));
}
